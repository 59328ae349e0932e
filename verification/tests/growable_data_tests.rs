use blobtree::growable_data::GrowableData;
use rand::RngCore;
use rand::SeedableRng;
use rand::rngs::StdRng;

fn data_region(size: usize, seed: u64) -> Vec<u8> {
    let mut rng = StdRng::seed_from_u64(seed);
    let mut res = vec![0; size];
    rng.fill_bytes(&mut res);
    res
}

#[test]
fn given_fullrangedata_when_callingasref() {
    let data = GrowableData::from_raw(data_region(1024, 0));
    assert_eq!(data.to_vec(), data_region(1024, 0));
}

#[test]
fn given_fullrangedata_when_callingasmut() {
    let mut data = GrowableData::from_raw(data_region(1024, 0));
    data.set(0, data.get(0));
    assert_eq!(data.to_vec(), data_region(1024, 0));
}

#[test]
fn given_fullrangedata_when_gettingavailablebytes() {
    let data = GrowableData::from_raw(data_region(1024, 0));
    assert_eq!(0, data.available_prefix_bytes());
    assert_eq!(0, data.available_suffix_bytes());
}

#[test]
fn given_fullsubregiondata_when_callingasref() {
    let data = GrowableData::from_raw(data_region(1024, 0));
    let subdata = data.into_subregion(0, 0);
    assert_eq!(0, subdata.available_prefix_bytes());
    assert_eq!(0, subdata.available_suffix_bytes());
    assert_eq!(subdata.to_vec(), data_region(1024, 0));
}

#[test]
fn given_fullsubregiondata_when_callingasmut() {
    let data = GrowableData::from_raw(data_region(1024, 0));
    let mut subdata = data.into_subregion(0, 0);
    assert_eq!(0, subdata.available_prefix_bytes());
    assert_eq!(0, subdata.available_suffix_bytes());
    subdata.set(0, subdata.get(0));
    assert_eq!(subdata.to_vec(), data_region(1024, 0));
}

#[test]
fn given_fullsubregiondata_when_gettingavailablebytes() {
    let data = GrowableData::from_raw(data_region(1024, 0));
    let subdata = data.into_subregion(0, 0);
    assert_eq!(0, subdata.available_prefix_bytes());
    assert_eq!(0, subdata.available_suffix_bytes());
}

#[test]
fn given_openendsubregiondata_when_callingasref() {
    let data = GrowableData::from_raw(data_region(1024, 0));
    let subdata = data.into_subregion(5, 0);
    assert_eq!(subdata.to_vec(), data_region(1024, 0)[5..].to_vec());
}

#[test]
fn given_openendsubregiondata_when_callingasmut() {
    let data = GrowableData::from_raw(data_region(1024, 0));
    let mut subdata = data.into_subregion(5, 0);
    subdata.set(0, subdata.get(0));
    assert_eq!(subdata.to_vec(), data_region(1024, 0)[5..].to_vec());
}

#[test]
fn given_openendsubregiondata_when_gettingavailablebytes() {
    let data = GrowableData::from_raw(data_region(1024, 0));
    let subdata = data.into_subregion(5, 0);
    assert_eq!(5, subdata.available_prefix_bytes());
    assert_eq!(0, subdata.available_suffix_bytes());
}

#[test]
fn given_openbeginningsubregiondata_when_callingasref() {
    let data = GrowableData::from_raw(data_region(1024, 0));
    let subdata = data.into_subregion(0, 24);
    assert_eq!(subdata.to_vec(), data_region(1024, 0)[..1000].to_vec());
}

#[test]
fn given_openbeginningsubregiondata_when_callingasmut() {
    let data = GrowableData::from_raw(data_region(1024, 0));
    let mut subdata = data.into_subregion(0, 24);
    subdata.set(0, subdata.get(0));
    assert_eq!(subdata.to_vec(), data_region(1024, 0)[..1000].to_vec());
}

#[test]
fn given_openbeginningsubregiondata_when_gettingavailablebytes() {
    let data = GrowableData::from_raw(data_region(1024, 0));
    let subdata = data.into_subregion(0, 24);
    assert_eq!(0, subdata.available_prefix_bytes());
    assert_eq!(24, subdata.available_suffix_bytes());
}

#[test]
fn given_subregiondata_when_callingasref() {
    let data = GrowableData::from_raw(data_region(1024, 0));
    let subdata = data.into_subregion(5, 24);
    assert_eq!(subdata.to_vec(), data_region(1024, 0)[5..1000].to_vec());
}

#[test]
fn given_subregiondata_when_callingasmut() {
    let data = GrowableData::from_raw(data_region(1024, 0));
    let mut subdata = data.into_subregion(5, 24);
    subdata.set(0, subdata.get(0));
    assert_eq!(subdata.to_vec(), data_region(1024, 0)[5..1000].to_vec());
}

#[test]
fn given_subregiondata_when_gettingavailablebytes() {
    let data = GrowableData::from_raw(data_region(1024, 0));
    let subdata = data.into_subregion(5, 24);
    assert_eq!(5, subdata.available_prefix_bytes());
    assert_eq!(24, subdata.available_suffix_bytes());
}

#[test]
fn nested_subregions_still_do_the_right_thing() {
    let data = GrowableData::from_raw(data_region(1024, 0));
    let subdata = data
        .into_subregion(0, 0)
        .into_subregion(5, 0)
        .into_subregion(0, 19)
        .into_subregion(0, 49)
        .into_subregion(10, 51)
        .into_subregion(3, 89)
        .into_subregion(0, 0)
        .into_subregion(5, 0)
        .into_subregion(0, 93)
        .into_subregion(0, 49)
        .into_subregion(10, 51)
        .into_subregion(3, 89);
    assert_eq!(36, subdata.available_prefix_bytes());
    assert_eq!(490, subdata.available_suffix_bytes());
    let expected = data_region(1024, 0)[..][5..][..1000][..=950][10..900][3..=800][..][5..][..700]
        [..=650][10..600][3..=500]
        .to_vec();
    assert_eq!(subdata.to_vec(), expected);
}

#[test]
fn grow_after_shrink_restores_length() {
    let data = GrowableData::from_raw(data_region(64, 1));
    let sub = data.into_subregion(8, 4);
    assert_eq!(52, sub.len());
    let grown = sub.grow_region(8, 4);
    assert_eq!(64, grown.len());
    assert_eq!(grown.to_vec(), data_region(64, 1));
}
