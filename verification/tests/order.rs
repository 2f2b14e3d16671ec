use pots::asset_tag::AssetTag;
use pots::order::{sorted, tag_before, text_before};

fn tags(symbols: &[&str]) -> Vec<AssetTag> {
    symbols.iter().map(|s| AssetTag::from(s)).collect()
}

#[test]
fn text_before_goes_by_characters() {
    assert!(text_before("", ""));
    assert!(text_before("", "a"));
    assert!(!text_before("a", ""));
    assert!(text_before("a", "a"));
    assert!(text_before("a", "ab"));
    assert!(!text_before("ab", "a"));
    assert!(text_before("ab", "b"));
    assert!(text_before("Z", "a"));
    assert!(text_before("z", "é"));
}

#[test]
fn tag_before_puts_equities_first_and_cash_last() {
    assert!(tag_before(&AssetTag::from("zzz"), &AssetTag::from(":a")));
    assert!(!tag_before(&AssetTag::from(":a"), &AssetTag::from("zzz")));
    assert!(tag_before(&AssetTag::from(":z"), &AssetTag::Usd));
    assert!(!tag_before(&AssetTag::Usd, &AssetTag::from("a")));
    assert!(tag_before(&AssetTag::Usd, &AssetTag::Usd));
    assert!(tag_before(&AssetTag::from("a"), &AssetTag::from("b")));
    assert!(!tag_before(&AssetTag::from("b"), &AssetTag::from("a")));
}

#[test]
fn sorted_orders_the_tags() {
    assert_eq!(
        sorted(&tags(&["usd", ":b", "b", "a", ":a", "ab"])),
        tags(&["a", "ab", "b", ":a", ":b", "usd"])
    );
    assert_eq!(sorted(&tags(&["b", "a", "b"])), tags(&["a", "b", "b"]));
    assert!(sorted(&vec![]).is_empty());
}

#[test]
fn sorted_agrees_with_the_order_of_strings() {
    let mut symbols = vec!["tsla", "spce", "cost", "a", "tsl", "zz", "Ab"];
    let sorted_tags = sorted(&tags(&symbols));
    symbols.sort_by_key(|s| s.to_uppercase());
    assert_eq!(sorted_tags, tags(&symbols));
}
