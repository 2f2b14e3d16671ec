use pots::amounts::Amounts;
use pots::asset_tag::AssetTag;
use pots::error::ValuationError;
use pots::ladder::Ladder;
use pots::lot::Lot;
use pots::portfolio::Portfolio;
use pots::ramp::Ramp;
use pots::report::{off_target_symbols, status, StatusRow};

fn lot(symbol: &str, count: i64, uid: u64) -> Lot {
    Lot::new("x", &AssetTag::from(symbol), count, uid)
}

fn tags(symbols: &[&str]) -> Vec<AssetTag> {
    symbols.iter().map(|s| AssetTag::from(s)).collect()
}

fn prices(entries: &[(&str, i128)]) -> Amounts {
    let mut prices = Amounts::new();
    for (symbol, price) in entries {
        prices.insert(AssetTag::from(symbol), *price);
    }
    prices
}

fn row(r: &StatusRow) -> (String, i128, i128, Option<usize>) {
    (r.symbol.to_string(), r.share_count, r.market_value, r.rung)
}

#[test]
fn status_lists_targets_from_the_top_then_the_rest_in_order() {
    let portfolio = Portfolio {
        lots: vec![lot("zeta", 1, 1), lot("tsla", 10, 2), lot(":hunt", 1, 3), lot("beta", 2, 4)],
        free_cash: 50,
    };
    let ladder = Ladder { targets: tags(&["spce", "tsla"]), ramp: Ramp::Golden };
    let prices = prices(&[("zeta", 3), ("tsla", 2), (":hunt", 100), ("beta", 5), ("usd", 1)]);
    let report = status(&portfolio, &ladder, &prices).unwrap();
    assert_eq!(report.free_cash, 50);
    assert_eq!(report.full_value, 3 + 20 + 100 + 10 + 50);
    let rows: Vec<_> = report.rows.iter().map(row).collect();
    assert_eq!(
        rows,
        vec![
            ("TSLA".to_string(), 10, 20, Some(1)),
            ("SPCE".to_string(), 0, 0, Some(0)),
            ("BETA".to_string(), 2, 10, None),
            ("ZETA".to_string(), 1, 3, None),
            (":hunt".to_string(), 1, 100, None),
            ("USD".to_string(), 50, 50, None),
        ]
    );
}

#[test]
fn status_of_one_target_fully_held() {
    let portfolio = Portfolio { lots: vec![lot("TSLA", 10, 1)], free_cash: 0 };
    let ladder = Ladder { targets: tags(&["TSLA"]), ramp: Ramp::Golden };
    let report = status(&portfolio, &ladder, &prices(&[("TSLA", 2)])).unwrap();
    assert_eq!(report.full_value, 20);
    let rows: Vec<_> = report.rows.iter().map(row).collect();
    assert_eq!(rows, vec![("TSLA".to_string(), 10, 20, Some(0)), ("USD".to_string(), 0, 0, None)]);
    let base = 1.618033988749895_f64;
    let weights: Vec<f64> =
        report.rows.iter().map(|r| r.rung.map_or(0.0, |rung| base.powi(rung as i32))).collect();
    let full_weight: f64 = weights.iter().sum();
    let portion = weights[0] / full_weight;
    assert_eq!(portion, 1.0);
    let drift = report.rows[0].market_value as f64 - portion * report.full_value as f64;
    assert_eq!(drift, 0.0);
}

#[test]
fn cash_as_a_target_has_no_rung_and_a_second_row() {
    let portfolio = Portfolio { lots: vec![], free_cash: 5 };
    let ladder = Ladder { targets: tags(&["usd", "tsla"]), ramp: Ramp::Flat };
    let report = status(&portfolio, &ladder, &prices(&[("usd", 1)])).unwrap();
    let rows: Vec<_> = report.rows.iter().map(row).collect();
    assert_eq!(
        rows,
        vec![
            ("TSLA".to_string(), 0, 0, Some(1)),
            ("USD".to_string(), 5, 5, None),
            ("USD".to_string(), 5, 5, None),
        ]
    );
}

#[test]
fn status_needs_the_market_value() {
    let portfolio = Portfolio { lots: vec![lot("tsla", 10, 1)], free_cash: 0 };
    let ladder = Ladder { targets: vec![], ramp: Ramp::Golden };
    assert!(matches!(
        status(&portfolio, &ladder, &Amounts::new()),
        Err(ValuationError::MissingPrice(_))
    ));
    let big = Portfolio { lots: vec![lot("tsla", 2, 1)], free_cash: i128::MAX };
    assert!(matches!(
        status(&big, &ladder, &prices(&[("tsla", 1), ("usd", 1)])),
        Err(ValuationError::Overflow)
    ));
}

#[test]
fn off_target_symbols_always_hold_cash() {
    assert_eq!(
        off_target_symbols(&tags(&["a", "b", "usd"]), &tags(&["b", "usd"])),
        tags(&["a", "usd"])
    );
    assert_eq!(off_target_symbols(&tags(&["a", "usd"]), &tags(&[])), tags(&["a", "usd"]));
    assert_eq!(off_target_symbols(&tags(&[]), &tags(&["a"])), tags(&["usd"]));
}
