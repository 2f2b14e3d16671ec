use pots::amounts::Amounts;
use pots::asset_tag::AssetTag;
use pots::error::ValuationError;
use pots::lot::Lot;
use pots::portfolio::{sum_amounts, Portfolio};

fn lot(custody: &str, symbol: &str, count: i64, uid: u64) -> Lot {
    Lot::new(custody, &AssetTag::from(symbol), count, uid)
}

fn prices(entries: &[(&str, i128)]) -> Amounts {
    let mut prices = Amounts::new();
    for (symbol, price) in entries {
        prices.insert(AssetTag::from(symbol), *price);
    }
    prices
}

#[test]
fn share_counts_sum_the_lots_of_an_asset() {
    let portfolio = Portfolio {
        lots: vec![lot("x", "tsla", 10, 1), lot("y", "spce", 4, 2), lot("y", "tsla", -3, 3)],
        free_cash: 55,
    };
    let counts = portfolio.share_counts();
    assert_eq!(counts.len(), 3);
    assert_eq!(counts.get(&AssetTag::from("tsla")), Some(7));
    assert_eq!(counts.get(&AssetTag::from("spce")), Some(4));
    assert_eq!(counts.get(&AssetTag::Usd), Some(55));
    assert_eq!(counts.tag_at(0), &AssetTag::from("tsla"));
    assert_eq!(counts.tag_at(1), &AssetTag::from("spce"));
    assert_eq!(counts.tag_at(2), &AssetTag::Usd);
}

#[test]
fn share_counts_do_not_depend_on_the_order_of_lots() {
    let one = Portfolio {
        lots: vec![lot("x", "a", 1, 1), lot("x", "b", 2, 2), lot("x", "a", 4, 3)],
        free_cash: 0,
    };
    let other = Portfolio {
        lots: vec![lot("x", "a", 4, 3), lot("x", "a", 1, 1), lot("x", "b", 2, 2)],
        free_cash: 0,
    };
    for symbol in ["a", "b", "usd"] {
        let tag = AssetTag::from(symbol);
        assert_eq!(one.share_counts().get(&tag), other.share_counts().get(&tag));
    }
    assert_eq!(one.share_counts().get(&AssetTag::from("a")), Some(5));
}

#[test]
fn share_counts_always_hold_cash() {
    let empty = Portfolio { lots: vec![], free_cash: -9 };
    let counts = empty.share_counts();
    assert_eq!(counts.len(), 1);
    assert_eq!(counts.get(&AssetTag::Usd), Some(-9));
}

#[test]
fn free_cash_overrides_lots_of_cash() {
    let portfolio = Portfolio { lots: vec![lot("x", "usd", 100, 1)], free_cash: 7 };
    let counts = portfolio.share_counts();
    assert_eq!(counts.len(), 1);
    assert_eq!(counts.get(&AssetTag::Usd), Some(7));
}

#[test]
fn share_counts_at_the_limits_of_a_count() {
    let portfolio = Portfolio {
        lots: vec![lot("x", "a", i64::MAX, 1), lot("x", "a", i64::MAX, 2), lot("x", "b", i64::MIN, 3)],
        free_cash: i128::MAX,
    };
    let counts = portfolio.share_counts();
    assert_eq!(counts.get(&AssetTag::from("a")), Some(2 * (i64::MAX as i128)));
    assert_eq!(counts.get(&AssetTag::from("b")), Some(i64::MIN as i128));
    assert_eq!(counts.get(&AssetTag::Usd), Some(i128::MAX));
}

#[test]
fn symbols_and_funded_symbols() {
    let portfolio = Portfolio {
        lots: vec![lot("x", "tsla", 10, 1), lot("y", "spce", 0, 2), lot("y", "gone", -1, 3)],
        free_cash: 0,
    };
    assert_eq!(
        portfolio.symbols(),
        vec![AssetTag::from("tsla"), AssetTag::from("spce"), AssetTag::from("gone"), AssetTag::Usd]
    );
    assert_eq!(portfolio.funded_symbols(), vec![AssetTag::from("tsla")]);
    let with_cash = Portfolio { lots: vec![], free_cash: 1 };
    assert_eq!(with_cash.funded_symbols(), vec![AssetTag::Usd]);
}

#[test]
fn market_values_multiply_price_and_count() {
    let portfolio = Portfolio {
        lots: vec![lot("x", "tsla", 10, 1), lot("y", "spce", 4, 2), lot("y", "tsla", 5, 3)],
        free_cash: 30,
    };
    let values = portfolio.market_values(&prices(&[("tsla", 2), ("spce", 7), ("usd", 1)])).unwrap();
    assert_eq!(values.len(), 3);
    assert_eq!(values.get(&AssetTag::from("tsla")), Some(30));
    assert_eq!(values.get(&AssetTag::from("spce")), Some(28));
    assert_eq!(values.get(&AssetTag::Usd), Some(30));
    assert_eq!(portfolio.market_value(&prices(&[("tsla", 2), ("spce", 7), ("usd", 1)])).unwrap(), 88);
}

#[test]
fn unfunded_assets_need_no_price_and_are_worth_nothing() {
    let portfolio = Portfolio {
        lots: vec![lot("x", "sold", 0, 1), lot("x", "short", -4, 2), lot("x", "tsla", 1, 3)],
        free_cash: 0,
    };
    let values = portfolio.market_values(&prices(&[("tsla", 3), ("short", 100)])).unwrap();
    assert_eq!(values.get(&AssetTag::from("sold")), Some(0));
    assert_eq!(values.get(&AssetTag::from("short")), Some(0));
    assert_eq!(values.get(&AssetTag::from("tsla")), Some(3));
    assert_eq!(values.get(&AssetTag::Usd), Some(0));
    assert_eq!(portfolio.market_value(&prices(&[("tsla", 3)])).unwrap(), 3);
}

#[test]
fn funded_asset_without_price_is_an_error() {
    let portfolio = Portfolio {
        lots: vec![lot("x", "tsla", 1, 1), lot("x", "spce", 1, 2), lot("x", "cost", 1, 3)],
        free_cash: 0,
    };
    match portfolio.market_values(&prices(&[("tsla", 3)])) {
        Err(ValuationError::MissingPrice(tag)) => assert_eq!(tag, AssetTag::from("spce")),
        other => panic!("unexpected: {:?}", other),
    }
    match portfolio.market_value(&prices(&[("tsla", 3), ("spce", 1)])) {
        Err(ValuationError::MissingPrice(tag)) => assert_eq!(tag, AssetTag::from("cost")),
        other => panic!("unexpected: {:?}", other),
    }
}

#[test]
fn positive_cash_needs_a_price_too() {
    let portfolio = Portfolio { lots: vec![], free_cash: 5 };
    match portfolio.market_values(&Amounts::new()) {
        Err(ValuationError::MissingPrice(tag)) => assert_eq!(tag, AssetTag::Usd),
        other => panic!("unexpected: {:?}", other),
    }
    let values = portfolio.market_values(&prices(&[("usd", 3)])).unwrap();
    assert_eq!(values.get(&AssetTag::Usd), Some(5));
    let owing = Portfolio { lots: vec![], free_cash: -5 };
    assert_eq!(owing.market_value(&Amounts::new()).unwrap(), -5);
}

#[test]
fn missing_price_comes_before_overflow() {
    let portfolio = Portfolio {
        lots: vec![lot("x", "big", i64::MAX, 1), lot("x", "spce", 1, 2)],
        free_cash: 0,
    };
    match portfolio.market_values(&prices(&[("big", i128::MAX)])) {
        Err(ValuationError::MissingPrice(tag)) => assert_eq!(tag, AssetTag::from("spce")),
        other => panic!("unexpected: {:?}", other),
    }
}

#[test]
fn a_value_beyond_128_bits_is_an_overflow() {
    let portfolio = Portfolio { lots: vec![lot("x", "big", 2, 1)], free_cash: 0 };
    assert!(matches!(
        portfolio.market_values(&prices(&[("big", i128::MAX)])),
        Err(ValuationError::Overflow)
    ));
    let fits = prices(&[("big", i128::MAX / 2), ("usd", 1)]);
    assert_eq!(portfolio.market_value(&fits).unwrap(), i128::MAX - 1);
    let over = Portfolio { lots: vec![lot("x", "big", 2, 1)], free_cash: 2 };
    assert!(matches!(over.market_value(&fits), Err(ValuationError::Overflow)));
}

#[test]
fn sum_amounts_adds_in_order() {
    let mut amounts = Amounts::new();
    assert_eq!(sum_amounts(&amounts), Some(0));
    amounts.insert(AssetTag::from("a"), i128::MAX);
    amounts.insert(AssetTag::from("b"), -1);
    assert_eq!(sum_amounts(&amounts), Some(i128::MAX - 1));
    amounts.insert(AssetTag::from("c"), 2);
    assert_eq!(sum_amounts(&amounts), None);
    let mut around = Amounts::new();
    around.insert(AssetTag::from("a"), i128::MAX);
    around.insert(AssetTag::from("c"), 2);
    around.insert(AssetTag::from("b"), -3);
    assert_eq!(sum_amounts(&around), None);
}
