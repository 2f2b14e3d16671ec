use pots::asset_tag::AssetTag;
use pots::error::ValuationError;
use pots::lot::Lot;
use pots::pot::Pot;
use pots::pot_path::PotPath;
use pots::ramp::Ramp;
use pots::store::PotStore;
use pots::transfer::{gather_asset, gather_tag, sources_in, split_lots, with_fresh_uids};

fn lot(custody: &str, symbol: &str, count: i64, uid: u64) -> Lot {
    Lot::new(custody, &AssetTag::from(symbol), count, uid)
}

fn pot_of(lots: Vec<Lot>) -> Pot {
    Pot { lots, free_cash: 0, ramp: Ramp::Golden, targets: vec![] }
}

fn root() -> PotPath {
    PotPath::CurrentFolder
}

fn holdings(store: &PotStore, path: &PotPath) -> Vec<(String, String, i64)> {
    store
        .get(path)
        .unwrap()
        .lots
        .iter()
        .map(|l| (l.custodian.as_str().to_string(), l.asset_tag.to_string(), l.share_count.units()))
        .collect()
}

fn held(custody: &str, symbol: &str, count: i64) -> (String, String, i64) {
    (custody.to_string(), symbol.to_string(), count)
}

fn tree() -> PotStore {
    let mut store = PotStore::new();
    store.insert(root(), pot_of(vec![lot("x", "tsla", 1, 1), lot("x", ":a", 1, 2), lot("x", ":b", 1, 3)]));
    store.insert(
        root().extend("a"),
        pot_of(vec![lot("p", "tsla", 2, 4), lot("q", "spce", 9, 5), lot("r", "tsla", 0, 6)]),
    );
    store.insert(root().extend("b"), pot_of(vec![lot("y", "spce", 3, 7)]));
    store
}

#[test]
fn split_lots_keeps_the_order() {
    let lots = vec![lot("a", "tsla", 1, 1), lot("b", "spce", 2, 2), lot("c", "tsla", 0, 3)];
    let (moving, staying) = split_lots(&lots, &AssetTag::from("tsla"));
    assert_eq!(moving.iter().map(|l| l.uid).collect::<Vec<_>>(), vec![1, 3]);
    assert_eq!(staying.iter().map(|l| l.uid).collect::<Vec<_>>(), vec![2]);
}

#[test]
fn fresh_uids_keep_the_holdings() {
    let lots = vec![lot("a", "tsla", 1, 1), lot("b", "spce", 2, 2)];
    let fresh = with_fresh_uids(&lots);
    assert_eq!(fresh.len(), 2);
    for (old, new) in lots.iter().zip(fresh.iter()) {
        assert_eq!(old.custodian.as_str(), new.custodian.as_str());
        assert_eq!(old.asset_tag, new.asset_tag);
        assert_eq!(old.share_count, new.share_count);
    }
}

#[test]
fn gather_moves_every_lot_of_the_asset() {
    let mut store = tree();
    let dest = root().extend("b");
    assert_eq!(gather_asset(&mut store, &root(), "tsla", &dest).unwrap(), 3);
    assert_eq!(holdings(&store, &root()), vec![held("x", ":a", 1), held("x", ":b", 1)]);
    assert_eq!(holdings(&store, &root().extend("a")), vec![held("q", "SPCE", 9)]);
    assert_eq!(
        holdings(&store, &dest),
        vec![held("y", "SPCE", 3), held("x", "TSLA", 1), held("p", "TSLA", 2), held("r", "TSLA", 0)]
    );
    assert_eq!(store.get(&dest).unwrap().lots[0].uid, 7);
}

#[test]
fn gather_keeps_the_count_of_the_tree() {
    let mut store = tree();
    let tsla = AssetTag::from("tsla");
    let before = store.get(&root().extend("a")).unwrap().read_portfolio().share_counts().get(&tsla);
    assert_eq!(before, Some(2));
    gather_asset(&mut store, &root(), "tsla", &root()).unwrap();
    let source = store.get(&root().extend("a")).unwrap().read_portfolio().share_counts();
    assert_eq!(source.get(&tsla), None);
    let dest = store.get(&root()).unwrap().read_portfolio().share_counts();
    assert_eq!(dest.get(&tsla), Some(3));
}

#[test]
fn gather_leaves_the_destination_lots_alone() {
    let mut store = tree();
    gather_asset(&mut store, &root(), "spce", &root().extend("a")).unwrap();
    assert_eq!(
        holdings(&store, &root().extend("a")),
        vec![held("p", "TSLA", 2), held("q", "SPCE", 9), held("r", "TSLA", 0), held("y", "SPCE", 3)]
    );
    let uids: Vec<u64> = store.get(&root().extend("a")).unwrap().lots.iter().map(|l| l.uid).collect();
    assert_eq!(&uids[..3], &[4, 5, 6]);
    assert!(store.get(&root().extend("b")).unwrap().lots.is_empty());
}

#[test]
fn gather_without_holders_changes_nothing() {
    let mut store = tree();
    assert_eq!(gather_asset(&mut store, &root(), "cost", &root().extend("nowhere")).unwrap(), 0);
    assert_eq!(holdings(&store, &root().extend("b")), vec![held("y", "SPCE", 3)]);
    assert_eq!(store.pots.len(), 3);
}

#[test]
fn gather_needs_the_destination() {
    let mut store = tree();
    assert!(matches!(
        gather_asset(&mut store, &root(), "tsla", &root().extend("nowhere")),
        Err(ValuationError::NotInitialized(_))
    ));
    assert_eq!(holdings(&store, &root().extend("a")).len(), 3);
    assert_eq!(holdings(&store, &root()).len(), 3);
}

#[test]
fn gather_skips_pots_whose_lots_of_the_asset_are_unfunded() {
    let mut store = PotStore::new();
    store.insert(root(), pot_of(vec![lot("x", ":a", 1, 1)]));
    store.insert(root().extend("a"), pot_of(vec![lot("p", "tsla", 0, 2)]));
    assert_eq!(gather_asset(&mut store, &root(), "tsla", &root()).unwrap(), 0);
    assert_eq!(holdings(&store, &root().extend("a")), vec![held("p", "TSLA", 0)]);
}

#[test]
fn sources_are_the_other_pots_that_hold_the_asset() {
    let store = tree();
    let assets = store.read_deep_assets(&root()).unwrap();
    let sources = sources_in(&assets, &AssetTag::from("tsla"), &root());
    assert_eq!(sources.len(), 1);
    assert!(sources[0].same_location(&root().extend("a")));
    let sources = sources_in(&assets, &AssetTag::from("spce"), &root());
    assert_eq!(sources.len(), 2);
}

#[test]
fn gather_tag_takes_the_tag_as_it_is() {
    let mut store = tree();
    let dest = root().extend("b");
    assert_eq!(gather_tag(&mut store, &root(), &AssetTag::from("TSLA"), &dest).unwrap(), 3);
    assert_eq!(gather_tag(&mut store, &root(), &AssetTag::from("TSLA"), &dest).unwrap(), 0);
    assert_eq!(gather_tag(&mut store, &root(), &AssetTag::Equity("tsla".to_string()), &dest).unwrap(), 0);
    assert_eq!(holdings(&store, &dest).len(), 4);
}
