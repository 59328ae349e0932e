use blobtree::block_id::BlockId;

#[test]
fn from_hex_round_trips_through_bytes() {
    let id = BlockId::from_hex("d86afd0489d7c3046c446e8ec1a049fe").unwrap();
    let bytes = id.to_bytes();
    assert_eq!(16, bytes.len());
    assert_eq!(
        bytes,
        vec![0xd8, 0x6a, 0xfd, 0x04, 0x89, 0xd7, 0xc3, 0x04, 0x6c, 0x44, 0x6e, 0x8e, 0xc1, 0xa0,
            0x49, 0xfe]
    );
    assert_eq!(id, BlockId::from_bytes(&bytes));
}

#[test]
fn from_hex_rejects_bad_input() {
    assert!(BlockId::from_hex("d86afd0489d7c3046c446e8ec1a049f").is_none());
    assert!(BlockId::from_hex("d86afd0489d7c3046c446e8ec1a049zz").is_none());
    assert!(BlockId::from_hex("").is_none());
}

#[test]
fn from_hex_accepts_upper_case() {
    let lower = BlockId::from_hex("d86afd0489d7c3046c446e8ec1a049fe").unwrap();
    let upper = BlockId::from_hex("D86AFD0489D7C3046C446E8EC1A049FE").unwrap();
    assert_eq!(lower, upper);
}
