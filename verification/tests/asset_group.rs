use pots::amounts::Amounts;
use pots::asset_group::{into_groups, AssetGroup};
use pots::asset_tag::AssetTag;
use pots::deep_asset::DeepAsset;
use pots::error::ValuationError;
use pots::lot::Lot;
use pots::pot::Pot;
use pots::pot_path::PotPath;
use pots::ramp::Ramp;
use pots::store::PotStore;

fn asset(folders: &[&str], symbol: &str) -> DeepAsset {
    let mut path = PotPath::CurrentFolder;
    for folder in folders {
        path = path.extend(folder);
    }
    DeepAsset::new(&path, &AssetTag::from(symbol))
}

fn titles(group: &AssetGroup) -> Vec<String> {
    group.assets.iter().map(|a| a.title()).collect()
}

#[test]
fn new_group_holds_its_asset() {
    let group = AssetGroup::new(&asset(&["a"], "tsla"));
    assert_eq!(group.tag, AssetTag::from("tsla"));
    assert_eq!(titles(&group), vec!["a::TSLA"]);
}

#[test]
fn add_keeps_each_member_once() {
    let group = AssetGroup::new(&asset(&["a"], "tsla"));
    let more = group.add(&asset(&["b"], "tsla")).add(&asset(&["a"], "tsla"));
    assert_eq!(titles(&more), vec!["a::TSLA", "b::TSLA"]);
    assert_eq!(titles(&group), vec!["a::TSLA"]);
    assert_eq!(more.tag, AssetTag::from("tsla"));
}

#[test]
fn into_groups_partitions_by_asset() {
    let groups = into_groups(vec![
        asset(&[], "tsla"),
        asset(&["a"], "spce"),
        asset(&["b"], "tsla"),
        asset(&["a", "c"], "tsla"),
        asset(&["b"], "tsla"),
    ]);
    assert_eq!(groups.len(), 2);
    assert_eq!(groups[0].tag, AssetTag::from("tsla"));
    assert_eq!(titles(&groups[0]), vec!["TSLA", "b::TSLA", "a::c::TSLA"]);
    assert_eq!(groups[1].tag, AssetTag::from("spce"));
    assert_eq!(titles(&groups[1]), vec!["a::SPCE"]);
    assert!(into_groups(vec![]).is_empty());
}

#[test]
fn group_value_sums_over_the_pots() {
    let tsla = AssetTag::from("tsla");
    let mut store = PotStore::new();
    store.insert(
        PotPath::CurrentFolder,
        Pot {
            lots: vec![Lot::new("x", &tsla, 1, 1), Lot::new("x", &AssetTag::from(":a"), 1, 2)],
            free_cash: 1000,
            ramp: Ramp::Golden,
            targets: vec![],
        },
    );
    store.insert(
        PotPath::CurrentFolder.extend("a"),
        Pot {
            lots: vec![Lot::new("y", &tsla, 3, 3), Lot::new("z", &tsla, 4, 4)],
            free_cash: 500,
            ramp: Ramp::Golden,
            targets: vec![],
        },
    );
    let mut quotes = Amounts::new();
    quotes.insert(tsla.clone(), 10);
    let prices = store.fetch_prices(&PotPath::CurrentFolder, &quotes).unwrap();
    let groups = into_groups(store.read_deep_assets(&PotPath::CurrentFolder).unwrap());
    assert_eq!(groups.len(), 1);
    assert_eq!(groups[0].market_value(&store, &prices).unwrap(), 80);
    let stray = AssetGroup::new(&asset(&["a"], "spce"));
    assert_eq!(stray.market_value(&store, &prices).unwrap(), 0);
    let lost = AssetGroup::new(&asset(&["nowhere"], "tsla"));
    assert!(matches!(lost.market_value(&store, &prices), Err(ValuationError::NotInitialized(_))));
    assert!(matches!(
        groups[0].market_value(&store, &Amounts::new()),
        Err(ValuationError::MissingPrice(_))
    ));
}
