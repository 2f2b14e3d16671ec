use pots::asset_tag::AssetTag;
use pots::lot::{to_be_bytes, Custodian, Lot, ShareCount};

#[test]
fn uid_pretty_is_sixteen_hex_digits() {
    let lot = Lot::new("x", &AssetTag::from("tsla"), 10, 255);
    assert_eq!(lot.uid_pretty(), "00000000000000ff");
    let lot = Lot::new("x", &AssetTag::from("tsla"), 10, 0x0123_4567_89ab_cdef);
    assert_eq!(lot.uid_pretty(), "0123456789abcdef");
    let lot = Lot::new("x", &AssetTag::from("tsla"), 10, u64::MAX);
    assert_eq!(lot.uid_pretty(), "ffffffffffffffff");
}

#[test]
fn be_bytes_start_with_the_highest() {
    assert_eq!(to_be_bytes(0x0102_0304_0506_0708), vec![1, 2, 3, 4, 5, 6, 7, 8]);
    assert_eq!(to_be_bytes(0), vec![0; 8]);
    assert_eq!(to_be_bytes(u64::MAX), vec![255; 8]);
}

#[test]
fn random_uids_differ() {
    let drawn: Vec<u64> = (0..8).map(|_| Lot::random_uid()).collect();
    assert!(drawn.iter().any(|u| *u != drawn[0]));
}

#[test]
fn funded_means_above_zero() {
    let tag = AssetTag::from("tsla");
    assert!(Lot::new("x", &tag, 1, 1).is_funded());
    assert!(!Lot::new("x", &tag, 0, 1).is_funded());
    assert!(!Lot::new("x", &tag, -3, 1).is_funded());
}

#[test]
fn lot_queries() {
    let lot = Lot::new("vault", &AssetTag::from("tsla"), 7, 42);
    assert!(lot.has_symbol("TSLA"));
    assert!(!lot.has_symbol("tsla"));
    assert!(lot.has_tag(&AssetTag::from("tsla")));
    assert!(lot.has_custodian("vault"));
    assert!(!lot.has_custodian("Vault"));
    assert_eq!(lot.symbol_string(), AssetTag::from("TSLA"));
    assert_eq!(lot.custodian.as_str(), "vault");
    assert_eq!(lot.share_count.units(), 7);
    assert_eq!(lot.uid, 42);
}

#[test]
fn with_share_count_keeps_the_rest() {
    let lot = Lot::new("vault", &AssetTag::from("tsla"), 7, 42);
    let changed = lot.with_share_count(-2);
    assert_eq!(changed.share_count, ShareCount(-2));
    assert_eq!(changed.uid, 42);
    assert_eq!(changed.asset_tag, lot.asset_tag);
    assert_eq!(changed.custodian.as_str(), "vault");
}

#[test]
fn with_uid_keeps_the_rest() {
    let lot = Lot::new("vault", &AssetTag::from("tsla"), 7, 42);
    let moved = lot.with_uid(43);
    assert_eq!(moved.uid, 43);
    assert_eq!(moved.share_count.units(), 7);
    assert_eq!(moved.asset_tag, lot.asset_tag);
    let fresh = lot.with_fresh_uid();
    assert_eq!(fresh.share_count.units(), 7);
    assert_eq!(fresh.asset_tag, lot.asset_tag);
    assert_eq!(fresh.custodian.as_str(), "vault");
}

#[test]
fn share_count_zero_tests() {
    assert!(ShareCount(0).is_zero());
    assert!(!ShareCount(0).is_non_zero());
    assert!(ShareCount(-1).is_non_zero());
    assert_eq!(Custodian::new("a").clone().as_str(), "a");
}
