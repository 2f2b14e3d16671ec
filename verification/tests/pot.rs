use pots::asset_tag::AssetTag;
use pots::lot::Lot;
use pots::pot::Pot;
use pots::ramp::Ramp;

fn lot(custody: &str, symbol: &str, count: i64, uid: u64) -> Lot {
    Lot::new(custody, &AssetTag::from(symbol), count, uid)
}

fn pot_of(lots: Vec<Lot>) -> Pot {
    Pot { lots, free_cash: 0, ramp: Ramp::Golden, targets: vec![] }
}

fn counts(pot: &Pot) -> Vec<i64> {
    pot.lots.iter().map(|l| l.share_count.units()).collect()
}

#[test]
fn new_pot_is_empty_and_golden() {
    let pot = Pot::new();
    assert!(pot.lots.is_empty());
    assert!(pot.targets.is_empty());
    assert_eq!(pot.free_cash, 0);
    assert_eq!(pot.ramp, Ramp::Golden);
}

#[test]
fn add_lot_appends() {
    let mut pot = Pot::new();
    assert!(pot.add_lot("x", &AssetTag::from("tsla"), 10, Some(7)));
    assert!(pot.add_lot("y", &AssetTag::from("tsla"), -2, Some(8)));
    assert_eq!(pot.lots.len(), 2);
    assert_eq!(pot.lots[0].uid, 7);
    assert_eq!(pot.lots[0].custodian.as_str(), "x");
    assert_eq!(pot.lots[0].asset_tag, AssetTag::from("tsla"));
    assert_eq!(counts(&pot), vec![10, -2]);
}

#[test]
fn add_lot_skips_a_taken_uid() {
    let mut pot = Pot::new();
    assert!(pot.add_lot("x", &AssetTag::from("tsla"), 10, Some(7)));
    assert!(!pot.add_lot("y", &AssetTag::from("spce"), 3, Some(7)));
    assert!(!pot.add_lot_with_uid("y", &AssetTag::from("spce"), 3, 7));
    assert_eq!(pot.lots.len(), 1);
    assert_eq!(pot.lots[0].asset_tag, AssetTag::from("tsla"));
    assert_eq!(counts(&pot), vec![10]);
    assert!(pot.has_uid(7));
    assert!(!pot.has_uid(8));
}

#[test]
fn add_lot_draws_a_uid_where_none_is_given() {
    let mut pot = Pot::new();
    let mut added = 0;
    for _ in 0..4 {
        if pot.add_lot("x", &AssetTag::from("tsla"), 1, None) {
            added += 1;
        }
    }
    assert_eq!(pot.lots.len(), added);
    assert!(added >= 1);
    for i in 0..pot.lots.len() {
        for j in 0..i {
            assert_ne!(pot.lots[i].uid, pot.lots[j].uid);
        }
    }
}

#[test]
fn add_lot_holds_a_nested_pot_once_or_not() {
    let mut pot = Pot::new();
    assert!(pot.add_lot("x", &AssetTag::from(":hunt"), 25, Some(1)));
    assert!(pot.add_lot("x", &AssetTag::from(":deep"), 0, Some(2)));
    assert!(pot.add_lot("x", &AssetTag::from(":gone"), -4, Some(3)));
    assert!(pot.add_lot("x", &AssetTag::Usd, 25, Some(4)));
    assert_eq!(counts(&pot), vec![1, 0, 0, 25]);
}

#[test]
fn read_shares_takes_the_first_match() {
    let pot = pot_of(vec![
        lot("x", "tsla", 10, 1),
        lot("y", "tsla", 20, 2),
        lot("y", "tsla", 30, 3),
        lot("y", "spce", 40, 4),
    ]);
    assert_eq!(pot.read_shares("y", "tsla"), 20);
    assert_eq!(pot.read_shares("y", "Tsla"), 20);
    assert_eq!(pot.read_shares("x", "tsla"), 10);
    assert_eq!(pot.read_shares("x", "spce"), 0);
    assert_eq!(pot.read_shares("z", "tsla"), 0);
    assert_eq!(pot.shares_held("y", &AssetTag::from("spce")), 40);
}

#[test]
fn write_shares_sets_every_match() {
    let mut pot = pot_of(vec![
        lot("x", "tsla", 10, 1),
        lot("y", "tsla", 20, 2),
        lot("y", "tsla", 30, 3),
        lot("y", "spce", 40, 4),
    ]);
    pot.free_cash = 9;
    assert_eq!(pot.write_shares("y", "tsla", 0), Some(3));
    assert_eq!(counts(&pot), vec![10, 0, 0, 40]);
    assert_eq!(pot.lots.iter().map(|l| l.uid).collect::<Vec<_>>(), vec![1, 2, 3, 4]);
    assert_eq!(pot.free_cash, 9);
    assert_eq!(pot.write_shares("x", "tsla", 5), Some(1));
    assert_eq!(counts(&pot), vec![5, 0, 0, 40]);
}

#[test]
fn write_shares_without_a_match_changes_nothing() {
    let mut pot = pot_of(vec![lot("x", "tsla", 10, 1)]);
    assert_eq!(pot.write_shares("y", "tsla", 3), None);
    assert_eq!(pot.set_shares("x", &AssetTag::from("spce"), 3), None);
    assert_eq!(counts(&pot), vec![10]);
}

#[test]
fn zeroed_lots_are_kept() {
    let mut pot = pot_of(vec![lot("x", "tsla", 10, 1)]);
    assert_eq!(pot.write_shares("x", "tsla", 0), Some(1));
    assert_eq!(pot.lots.len(), 1);
    assert!(pot.read_lot_assets().is_empty());
    assert!(pot.has_tag(&AssetTag::from("tsla")));
}

#[test]
fn lot_assets_are_those_of_funded_lots() {
    let pot = pot_of(vec![
        lot("x", "tsla", 10, 1),
        lot("x", "sold", 0, 2),
        lot("y", ":hunt", 1, 3),
        lot("y", "tsla", 5, 4),
        lot("y", "short", -1, 5),
        lot("y", "mix", -5, 6),
        lot("z", "mix", 1, 7),
    ]);
    assert_eq!(
        pot.read_lot_assets(),
        vec![AssetTag::from("tsla"), AssetTag::from(":hunt"), AssetTag::from("mix")]
    );
}

#[test]
fn portfolio_and_ladder_copy_the_pot() {
    let mut pot = pot_of(vec![lot("x", "tsla", 10, 1)]);
    pot.free_cash = 12;
    pot.ramp = Ramp::Flat;
    pot.targets = vec![AssetTag::from("a"), AssetTag::from("b")];
    let portfolio = pot.read_portfolio();
    assert_eq!(portfolio.free_cash, 12);
    assert_eq!(portfolio.lots.len(), 1);
    assert_eq!(portfolio.lots[0].uid, 1);
    let ladder = pot.read_ladder();
    assert_eq!(ladder.ramp, Ramp::Flat);
    assert_eq!(ladder.targets, pot.targets);
    let copy = pot.clone();
    assert_eq!(copy.free_cash, 12);
    assert_eq!(copy.targets, pot.targets);
    assert_eq!(copy.lots[0].share_count, pot.lots[0].share_count);
}

#[test]
fn lot_equities_leave_out_pots_and_cash() {
    let pot = pot_of(vec![
        lot("x", "tsla", 10, 1),
        lot("y", ":hunt", 1, 2),
        lot("y", "usd", 5, 3),
        lot("y", "spce", 0, 4),
        lot("z", "cost", 2, 5),
    ]);
    assert_eq!(pot.read_lot_equities(), vec![AssetTag::from("tsla"), AssetTag::from("cost")]);
}
