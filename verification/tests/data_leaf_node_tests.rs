use blobtree::block_store::InMemoryBlockStore;
use blobtree::data_fixture::DataFixture;
use blobtree::data_node::DataNode;
use blobtree::data_node_store::DataNodeStore;
use blobtree::growable_data::GrowableData;
use blobtree::layout::FORMAT_VERSION_HEADER;
use blobtree::layout::NodeLayout;
use blobtree::layout::read_u16_be;
use blobtree::layout::read_u32_le;

const PHYSICAL_BLOCK_SIZE_BYTES: u32 = 1024;

fn new_nodestore() -> DataNodeStore {
    DataNodeStore::new(InMemoryBlockStore::new(), PHYSICAL_BLOCK_SIZE_BYTES)
        .unwrap_or_else(|_| panic!("block size accepted"))
}

fn data_fixture(size: usize, seed: u64) -> Vec<u8> {
    DataFixture::new(seed).get(size)
}

fn full_leaf_data(seed: u64) -> Vec<u8> {
    let layout = NodeLayout { block_size_bytes: PHYSICAL_BLOCK_SIZE_BYTES };
    data_fixture(layout.max_bytes_per_leaf() as usize, seed)
}

fn load_leaf_node(
    nodestore: &DataNodeStore,
    block_id: blobtree::block_id::BlockId,
) -> blobtree::data_node::DataLeafNode {
    match nodestore.load(block_id) {
        Ok(Some(DataNode::Leaf(leaf))) => leaf,
        _ => panic!("expected a leaf node"),
    }
}

#[test]
fn test_serialize_leaf_node_optimized() {
    let layout = NodeLayout { block_size_bytes: PHYSICAL_BLOCK_SIZE_BYTES };
    const SIZE: usize = 10;
    let data = GrowableData::from_raw(vec![0; PHYSICAL_BLOCK_SIZE_BYTES as usize]);
    let mut data = data.into_subregion(
        (PHYSICAL_BLOCK_SIZE_BYTES - layout.max_bytes_per_leaf()) as usize,
        0,
    );
    let pattern = data_fixture(SIZE, 0);
    for i in 0..SIZE {
        data.set(i, pattern[i]);
    }
    let expected_payload = data.to_vec();
    let serialized =
        blobtree::data_node::serialize_leaf_node_optimized(data, SIZE as u32, &layout);
    assert_eq!(read_u16_be(&serialized, 0), FORMAT_VERSION_HEADER);
    assert_eq!(serialized[2], 0);
    assert_eq!(serialized[3], 0);
    assert_eq!(read_u32_le(&serialized, 4), SIZE as u32);
    assert_eq!(&serialized[8..], &expected_payload[..]);
}

#[test]
fn loaded_node_returns_correct_key() {
    let mut nodestore = new_nodestore();
    let block_id = *nodestore.create_new_leaf_node(&full_leaf_data(1)).block_id();
    let loaded = load_leaf_node(&nodestore, block_id);
    assert_eq!(block_id, *loaded.block_id());
}

#[test]
fn has_new_size() {
    let leaf_sizes: Vec<u32> = vec![
        0,
        1,
        5,
        16,
        32,
        512,
        NodeLayout { block_size_bytes: PHYSICAL_BLOCK_SIZE_BYTES }.max_bytes_per_leaf(),
    ];
    for leaf_size in leaf_sizes {
        let mut nodestore = new_nodestore();
        let mut leaf = nodestore.create_new_leaf_node(&data_fixture(100, 1));
        leaf.resize(leaf_size);
        assert_eq!(leaf_size, leaf.num_bytes());
        assert_eq!(leaf_size as usize, leaf.data().len());

        // the size must survive storing and reloading the leaf
        let block_id = *leaf.block_id();
        nodestore.overwrite_raw(block_id, leaf.raw_blockdata().clone());
        drop(leaf);
        let leaf = load_leaf_node(&nodestore, block_id);
        assert_eq!(leaf_size, leaf.num_bytes());
        assert_eq!(leaf_size as usize, leaf.data().len());
    }
}

#[test]
fn growing() {
    let mut nodestore = new_nodestore();
    let mut leaf = nodestore.create_new_leaf_node(&data_fixture(100, 1));
    leaf.resize(200);
    // Old data is still intact
    assert_eq!(&data_fixture(100, 1)[..], &leaf.data()[0..100]);
    // New data is zeroed out
    assert_eq!(&[0; 100], &leaf.data()[100..200]);
}

#[test]
fn shrinking_and_growing() {
    let mut nodestore = new_nodestore();
    let mut leaf = nodestore.create_new_leaf_node(&full_leaf_data(1));
    assert_eq!(full_leaf_data(1)[0..200], leaf.data()[0..200]);
    leaf.resize(100);
    leaf.resize(200);
    // Never-touched data is still intact
    assert_eq!(full_leaf_data(1)[0..100], leaf.data()[0..100]);
    // Briefly shrunken area is zeroed out
    assert_eq!(&[0; 100], &leaf.data()[100..200]);
}

#[test]
fn shrinking() {
    let mut nodestore = new_nodestore();
    let mut leaf = nodestore.create_new_leaf_node(&full_leaf_data(1));
    const HEADER_LEN: usize = blobtree::layout::NODE_HEADER_SIZE;
    assert_eq!(full_leaf_data(1)[0..200], leaf.raw_blockdata()[HEADER_LEN..][0..200]);
    leaf.resize(100);
    // Still-in-range data is still intact
    assert_eq!(full_leaf_data(1)[0..100], leaf.raw_blockdata()[HEADER_LEN..][0..100]);
    // Out-of-range data is zeroed out
    let max = NodeLayout { block_size_bytes: PHYSICAL_BLOCK_SIZE_BYTES }.max_bytes_per_leaf();
    assert_eq!(
        &vec![0; max as usize - 100],
        &leaf.raw_blockdata()[HEADER_LEN..][100..]
    );
}

#[test]
fn empty_leaf_is_empty() {
    let mut nodestore = new_nodestore();
    let leaf = nodestore.create_new_leaf_node(&vec![0u8; 0]);
    assert_eq!(&[0u8; 0], leaf.data());

    // Still empty after loading
    let block_id = *leaf.block_id();
    drop(leaf);
    let leaf = load_leaf_node(&nodestore, block_id);
    assert_eq!(&[0u8; 0], leaf.data());
}

#[test]
fn after_resizing_has_new_size_and_is_zeroed_out() {
    let mut nodestore = new_nodestore();
    let mut leaf = nodestore.create_new_leaf_node(&vec![0u8; 0]);
    leaf.resize(100);
    assert_eq!(&[0u8; 100], leaf.data());

    // Still correct after loading
    let block_id = *leaf.block_id();
    nodestore.overwrite_raw(block_id, leaf.raw_blockdata().clone());
    drop(leaf);
    let leaf = load_leaf_node(&nodestore, block_id);
    assert_eq!(&[0u8; 100], leaf.data());
}

#[test]
fn after_writing_has_new_data() {
    let mut nodestore = new_nodestore();
    let mut leaf = nodestore.create_new_leaf_node(&vec![0u8; 0]);
    leaf.resize(100);
    leaf.write_at(0, &data_fixture(100, 1));
    assert_eq!(&data_fixture(100, 1)[..], leaf.data());

    // Still correct after loading
    let block_id = *leaf.block_id();
    nodestore.overwrite_raw(block_id, leaf.raw_blockdata().clone());
    drop(leaf);
    let leaf = load_leaf_node(&nodestore, block_id);
    assert_eq!(&data_fixture(100, 1)[..], leaf.data());
}
