use blobtree::num::NonZeroU64;
use blobtree::num::NonZeroU64Ext;
use blobtree::outer_config::OuterConfig;
use blobtree::outer_config::OuterConfigParseError;

fn header_with_nul() -> Vec<u8> {
    let mut v = b"cryfs.config;1;scrypt".to_vec();
    v.push(0);
    v
}

#[test]
fn outer_config_round_trip() {
    let kdf = vec![1u8, 2, 3, 4, 5];
    let body = vec![9u8, 8, 7];
    let config = OuterConfig::new(kdf.clone(), body.clone());
    let serialized = config.serialize();
    let mut expected = header_with_nul();
    expected.extend_from_slice(&[5, 0, 0, 0, 0, 0, 0, 0]);
    expected.extend_from_slice(&kdf);
    expected.extend_from_slice(&body);
    assert_eq!(serialized, expected);
    let parsed = OuterConfig::deserialize(&serialized).unwrap();
    assert_eq!(parsed.kdf_parameters(), &kdf[..]);
    assert_eq!(parsed.encrypted_inner_config(), &body[..]);
}

#[test]
fn outer_config_empty_fields_round_trip() {
    let config = OuterConfig::new(vec![], vec![]);
    let serialized = config.serialize();
    assert_eq!(serialized.len(), 30);
    let parsed = OuterConfig::deserialize(&serialized).unwrap();
    assert_eq!(parsed.kdf_parameters(), &[] as &[u8]);
    assert_eq!(parsed.encrypted_inner_config(), &[] as &[u8]);
}

#[test]
fn outer_config_truncated_input() {
    let input = header_with_nul();
    match OuterConfig::deserialize(&input) {
        Err(e) => assert_eq!(e, OuterConfigParseError::Truncated),
        Ok(_) => panic!("expected a parse error"),
    }
}

#[test]
fn outer_config_wrong_header() {
    let mut input = b"cryfs.config;1;other!".to_vec();
    input.push(0);
    input.extend_from_slice(&[0u8; 8]);
    match OuterConfig::deserialize(&input) {
        Err(e) => assert_eq!(e, OuterConfigParseError::InvalidHeader),
        Ok(_) => panic!("expected a parse error"),
    }
}

#[test]
fn outer_config_missing_terminator() {
    let mut input = b"cryfs.config;1;scrypt".to_vec();
    input.push(7);
    input.extend_from_slice(&[0u8; 8]);
    match OuterConfig::deserialize(&input) {
        Err(e) => assert_eq!(e, OuterConfigParseError::InvalidHeader),
        Ok(_) => panic!("expected a parse error"),
    }
}

#[test]
fn outer_config_kdf_length_beyond_input() {
    let mut input = header_with_nul();
    input.extend_from_slice(&[4, 0, 0, 0, 0, 0, 0, 0]);
    input.extend_from_slice(&[1, 2, 3]);
    match OuterConfig::deserialize(&input) {
        Err(e) => assert_eq!(e, OuterConfigParseError::KdfParametersTooLong),
        Ok(_) => panic!("expected a parse error"),
    }
}

#[test]
fn nonzero_checked_add_within_range() {
    let n = NonZeroU64::new(41).unwrap();
    let sum = n.checked_add(1).unwrap();
    assert_eq!(42, sum.get());
}

#[test]
fn nonzero_checked_add_overflow() {
    let n = NonZeroU64::new(u64::MAX).unwrap();
    assert!(n.checked_add(1).is_none());
}

#[test]
fn nonzero_new_rejects_zero() {
    assert!(NonZeroU64::new(0).is_none());
}
