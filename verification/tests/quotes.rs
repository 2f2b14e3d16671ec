use pots::asset_tag::AssetTag;
use pots::error::ValuationError;
use pots::quotes::{fetch_equity_prices, find_by_symbol, lookup_symbols, Quote};

fn quote(symbol: &str, usd_price: Option<i128>) -> Quote {
    Quote { symbol: symbol.to_string(), usd_price }
}

#[test]
fn lookup_symbols_asks_once_for_each_text() {
    let equities = vec![AssetTag::from("tsla"), AssetTag::from("spce"), AssetTag::from("TSLA")];
    assert_eq!(lookup_symbols(&equities), vec!["TSLA".to_string(), "SPCE".to_string()]);
    assert!(lookup_symbols(&vec![]).is_empty());
}

#[test]
fn answers_become_prices_by_asset() {
    let equities = vec![AssetTag::from("tsla"), AssetTag::from("spce")];
    let prices =
        fetch_equity_prices(&equities, &vec![quote("SPCE", Some(7)), quote("TSLA", Some(2))]).unwrap();
    assert_eq!(prices.len(), 2);
    assert_eq!(prices.get(&AssetTag::from("tsla")), Some(2));
    assert_eq!(prices.get(&AssetTag::from("spce")), Some(7));
    assert_eq!(fetch_equity_prices(&equities, &vec![]).unwrap().len(), 0);
}

#[test]
fn an_answer_without_price_is_fatal() {
    let equities = vec![AssetTag::from("tsla"), AssetTag::from("spce")];
    match fetch_equity_prices(&equities, &vec![quote("TSLA", Some(2)), quote("SPCE", None)]) {
        Err(ValuationError::MissingPrice(tag)) => assert_eq!(tag, AssetTag::from("spce")),
        other => panic!("unexpected: {:?}", other),
    }
}

#[test]
fn answers_nobody_asked_for_are_passed_over() {
    let equities = vec![AssetTag::from("tsla")];
    let prices =
        fetch_equity_prices(&equities, &vec![quote("COST", None), quote("TSLA", Some(2))]).unwrap();
    assert_eq!(prices.len(), 1);
    assert_eq!(find_by_symbol(&equities, "TSLA"), Some(&AssetTag::from("tsla")));
    assert_eq!(find_by_symbol(&equities, "tsla"), None);
}
