use blobtree::block_store::InMemoryBlockStore;
use blobtree::data_fixture::DataFixture;
use blobtree::data_tree_store::DataTreeStore;
use blobtree::layout::NodeLayout;

const PHYSICAL_BLOCK_SIZE_BYTES: u32 = 1024;

fn new_treestore() -> DataTreeStore {
    DataTreeStore::new(InMemoryBlockStore::new(), PHYSICAL_BLOCK_SIZE_BYTES)
        .unwrap_or_else(|_| panic!("block size accepted"))
}

fn data_fixture(size: usize, seed: u64) -> Vec<u8> {
    DataFixture::new(seed).get(size)
}

#[test]
fn grow_then_read_zeros() {
    let mut store = new_treestore();
    let tree = store.create_tree().unwrap();
    tree.resize_num_bytes(&mut store.node_store, 100).unwrap();
    assert_eq!(100, tree.num_bytes(store.node_store()).unwrap());
    let mut buf = vec![7u8; 100];
    tree.read_bytes(store.node_store(), 0, &mut buf).unwrap();
    assert_eq!(buf, vec![0u8; 100]);
}

#[test]
fn write_then_read() {
    let mut store = new_treestore();
    let tree = store.create_tree().unwrap();
    tree.resize_num_bytes(&mut store.node_store, 100).unwrap();
    let data = data_fixture(100, 1);
    tree.write_bytes(&mut store.node_store, &data, 0).unwrap();
    let mut buf = vec![0u8; 100];
    tree.read_bytes(store.node_store(), 0, &mut buf).unwrap();
    assert_eq!(buf, data);
}

#[test]
fn root_id_preserved_across_depth_change() {
    let mut store = new_treestore();
    let layout = NodeLayout { block_size_bytes: PHYSICAL_BLOCK_SIZE_BYTES };
    let mbl = layout.max_bytes_per_leaf() as u64;
    let k = layout.max_children_per_inner_node() as u64;
    let tree = store.create_tree().unwrap();
    let root_id = *tree.root_node_id();
    assert_eq!(Some(0), store.load_block_depth(&root_id).unwrap());
    // one leaf more than a full depth-one tree forces depth two
    tree.resize_num_bytes(&mut store.node_store, (k + 1) * mbl).unwrap();
    assert_eq!(root_id, *tree.root_node_id());
    assert_eq!(Some(2), store.load_block_depth(&root_id).unwrap());
    // and shrinking back restores a single leaf under the same id
    tree.resize_num_bytes(&mut store.node_store, 5).unwrap();
    assert_eq!(Some(0), store.load_block_depth(&root_id).unwrap());
    assert_eq!(5, tree.num_bytes(store.node_store()).unwrap());
}

#[test]
fn resize_is_idempotent() {
    let mut store = new_treestore();
    let tree = store.create_tree().unwrap();
    tree.resize_num_bytes(&mut store.node_store, 5000).unwrap();
    let data = data_fixture(5000, 3);
    tree.write_bytes(&mut store.node_store, &data, 0).unwrap();
    tree.resize_num_bytes(&mut store.node_store, 5000).unwrap();
    assert_eq!(5000, tree.num_bytes(store.node_store()).unwrap());
    let mut buf = vec![0u8; 5000];
    tree.read_bytes(store.node_store(), 0, &mut buf).unwrap();
    assert_eq!(buf, data);
}

#[test]
fn shrink_then_grow_reveals_zeroes() {
    let mut store = new_treestore();
    let tree = store.create_tree().unwrap();
    let data = data_fixture(3000, 1);
    tree.write_bytes(&mut store.node_store, &data, 0).unwrap();
    tree.resize_num_bytes(&mut store.node_store, 1000).unwrap();
    tree.resize_num_bytes(&mut store.node_store, 3000).unwrap();
    let mut buf = vec![9u8; 3000];
    tree.read_bytes(store.node_store(), 0, &mut buf).unwrap();
    assert_eq!(&buf[..1000], &data[..1000]);
    assert_eq!(&buf[1000..], &vec![0u8; 2000][..]);
}

#[test]
fn try_read_clamps_to_available_bytes() {
    let mut store = new_treestore();
    let tree = store.create_tree().unwrap();
    let data = data_fixture(50, 2);
    tree.write_bytes(&mut store.node_store, &data, 0).unwrap();
    let mut buf = vec![3u8; 80];
    let n = tree.try_read_bytes(store.node_store(), 20, &mut buf).unwrap();
    assert_eq!(30, n);
    assert_eq!(&buf[..30], &data[20..50]);
    assert_eq!(&buf[30..], &vec![3u8; 50][..]);
}

#[test]
fn read_past_end_fails_without_touching_buffer() {
    let mut store = new_treestore();
    let tree = store.create_tree().unwrap();
    tree.resize_num_bytes(&mut store.node_store, 10).unwrap();
    let mut buf = vec![5u8; 20];
    assert!(tree.read_bytes(store.node_store(), 0, &mut buf).is_err());
    assert_eq!(buf, vec![5u8; 20]);
}

#[test]
fn write_past_end_grows_the_blob() {
    let mut store = new_treestore();
    let tree = store.create_tree().unwrap();
    let data = data_fixture(100, 4);
    tree.write_bytes(&mut store.node_store, &data, 2500).unwrap();
    assert_eq!(2600, tree.num_bytes(store.node_store()).unwrap());
    let mut buf = vec![1u8; 2600];
    tree.read_bytes(store.node_store(), 0, &mut buf).unwrap();
    assert_eq!(&buf[..2500], &vec![0u8; 2500][..]);
    assert_eq!(&buf[2500..], &data[..]);
}
