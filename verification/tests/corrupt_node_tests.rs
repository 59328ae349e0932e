use blobtree::StoreError;
use blobtree::block_id::BlockId;
use blobtree::block_store::InMemoryBlockStore;
use blobtree::data_node::CorruptNodeReason;
use blobtree::data_node_store::DataNodeStore;
use blobtree::data_tree_store::DataTreeStore;

const PHYSICAL_BLOCK_SIZE_BYTES: u32 = 1024;

/// A block of the right size whose header holds the given raw fields.
fn raw_block(version_hi: u8, version_lo: u8, depth: u8, field: u32) -> Vec<u8> {
    let mut block = vec![0u8; PHYSICAL_BLOCK_SIZE_BYTES as usize];
    block[0] = version_hi;
    block[1] = version_lo;
    block[2] = 0;
    block[3] = depth;
    block[4..8].copy_from_slice(&field.to_le_bytes());
    block
}

fn store_with_block(block: Vec<u8>) -> (DataNodeStore, BlockId) {
    let mut blocks = InMemoryBlockStore::new();
    let id = BlockId::new(7);
    blocks.store(&id, block);
    let store = DataNodeStore::new(blocks, PHYSICAL_BLOCK_SIZE_BYTES)
        .unwrap_or_else(|_| panic!("block size accepted"));
    (store, id)
}

fn expect_corrupt(r: Result<Option<blobtree::data_node::DataNode>, StoreError>) -> CorruptNodeReason {
    match r {
        Err(StoreError::CorruptNode { reason, .. }) => reason,
        _ => panic!("expected a corrupt-node error"),
    }
}

#[test]
fn load_rejects_wrong_format_version_in_leaf() {
    let (store, id) = store_with_block(raw_block(0, 1, 0, 5));
    assert_eq!(CorruptNodeReason::BadFormatVersion, expect_corrupt(store.load(id)));
}

#[test]
fn load_rejects_oversized_leaf() {
    let (store, id) = store_with_block(raw_block(0, 0, 0, PHYSICAL_BLOCK_SIZE_BYTES));
    assert_eq!(CorruptNodeReason::SizeTooLarge, expect_corrupt(store.load(id)));
}

#[test]
fn load_rejects_too_deep_inner_node() {
    let (store, id) = store_with_block(raw_block(0, 0, 11, 1));
    assert_eq!(CorruptNodeReason::DepthTooLarge, expect_corrupt(store.load(id)));
}

#[test]
fn load_rejects_childless_inner_node() {
    let (store, id) = store_with_block(raw_block(0, 0, 1, 0));
    assert_eq!(CorruptNodeReason::BadNumChildren, expect_corrupt(store.load(id)));
}

#[test]
fn load_rejects_overfull_inner_node() {
    let (store, id) = store_with_block(raw_block(0, 0, 1, 64));
    assert_eq!(CorruptNodeReason::BadNumChildren, expect_corrupt(store.load(id)));
}

#[test]
fn all_blocks_lists_every_node_once() {
    let mut store = DataTreeStore::new(InMemoryBlockStore::new(), PHYSICAL_BLOCK_SIZE_BYTES)
        .unwrap_or_else(|_| panic!("block size accepted"));
    let tree = store.create_tree().unwrap();
    let mbl = store.virtual_block_size_bytes() as u64;
    tree.resize_num_bytes(&mut store.node_store, 10 * mbl).unwrap();
    let mut ids = tree.all_blocks(store.node_store()).unwrap();
    assert_eq!(11, ids.len());
    ids.sort_by_key(|b| b.value);
    ids.dedup_by_key(|b| b.value);
    assert_eq!(11, ids.len());
}
