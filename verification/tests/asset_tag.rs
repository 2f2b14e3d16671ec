use pots::asset_tag::AssetTag;

#[test]
fn from_upper_cases_equities() {
    let expected = AssetTag::Equity("SPCE".to_string());
    assert_eq!(AssetTag::from("spce"), expected);
    assert_eq!(AssetTag::from("SPCE"), expected);
    assert_eq!(AssetTag::from(" Spce ".trim()), expected);
}

#[test]
fn from_usd_is_cash() {
    assert_eq!(AssetTag::from("usd"), AssetTag::Usd);
    assert_eq!(AssetTag::from("USD"), AssetTag::Usd);
    assert_ne!(AssetTag::from("usd"), AssetTag::Equity("USD".to_string()));
}

#[test]
fn from_lower_cases_pot_names() {
    let tag = AssetTag::from(":Hunt");
    assert_eq!(tag, AssetTag::Pot(":hunt".to_string()));
    assert!(tag.is_subpot());
    assert!(!tag.is_equity());
    assert_eq!(tag.as_str(), ":hunt");
    assert_eq!(tag.as_folder_name(), "hunt");
}

#[test]
fn from_untrimmed_text_is_an_equity() {
    assert_eq!(AssetTag::from(" :x"), AssetTag::Equity(" :X".to_string()));
}

#[test]
fn folder_name_round_trips() {
    let tag = AssetTag::pot_from_name("Deep Value");
    assert_eq!(tag.as_folder_name(), "deep value");
    assert_eq!(AssetTag::pot_from_name(tag.as_folder_name()), tag);
}

#[test]
fn folder_name_of_bare_marker_is_empty() {
    assert_eq!(AssetTag::from(":").as_folder_name(), "");
    assert_eq!(AssetTag::Pot(String::new()).as_folder_name(), "");
}

#[test]
fn kinds_and_texts() {
    let equity = AssetTag::equity("cost");
    assert!(equity.is_equity());
    assert!(!equity.is_subpot());
    assert_eq!(equity.as_str(), "COST");
    assert_eq!(equity.to_string(), "COST".to_string());
    assert!(!AssetTag::Usd.is_equity());
    assert!(!AssetTag::Usd.is_subpot());
    assert_eq!(AssetTag::Usd.as_str(), "USD");
    assert_eq!(AssetTag::equity("usd"), AssetTag::Usd);
}

#[test]
fn of_symbol_and_of_pot_name_take_text_as_it_is() {
    assert_eq!(AssetTag::of_symbol("abc".to_string()), AssetTag::Equity("abc".to_string()));
    assert_eq!(AssetTag::of_symbol("USD".to_string()), AssetTag::Usd);
    assert_eq!(AssetTag::of_symbol("usd".to_string()), AssetTag::Equity("usd".to_string()));
    assert_eq!(AssetTag::of_pot_name("Hunt"), AssetTag::Pot(":Hunt".to_string()));
}

#[test]
fn has_symbol_and_has_tag() {
    let tag = AssetTag::from("tsla");
    assert!(tag.has_symbol("TSLA"));
    assert!(!tag.has_symbol("tsla"));
    assert!(tag.has_tag(&AssetTag::Equity("TSLA".to_string())));
    assert!(!tag.has_tag(&AssetTag::Pot("TSLA".to_string())));
    assert_eq!(tag.clone(), tag);
}

#[test]
fn position_of_finds_first() {
    let tags = vec![AssetTag::from("a"), AssetTag::from("b"), AssetTag::from("a")];
    assert_eq!(pots::asset_tag::position_of(&tags, &AssetTag::from("a")), Some(0));
    assert_eq!(pots::asset_tag::position_of(&tags, &AssetTag::from("b")), Some(1));
    assert_eq!(pots::asset_tag::position_of(&tags, &AssetTag::from("c")), None);
}
