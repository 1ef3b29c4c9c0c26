use price_rs::config::{Config, SymbolInfo};
use price_rs::providers::{
    aggregate_prices, find_quote, AggregationError, FetchError, PriceInfo, ProviderReply, Quote,
    Service, PRICE_SCALE,
};

fn symbol(s: &str, id: &str) -> SymbolInfo {
    SymbolInfo { symbol: s.to_owned(), ckg_id: id.to_owned() }
}

fn quote(s: &str, price: u64) -> Quote {
    Quote { symbol: s.to_owned(), price }
}

fn ok(quotes: Vec<Quote>, weight: u32) -> ProviderReply {
    ProviderReply { quotes: Ok(quotes), weight }
}

fn failed(error: FetchError, weight: u32) -> ProviderReply {
    ProviderReply { quotes: Err(error), weight }
}

fn config_with(symbols: Vec<SymbolInfo>) -> Config {
    let mut config = Config::default();
    config.symbols = symbols;
    config
}

fn price_of(prices: &[PriceInfo], s: &str) -> u64 {
    prices.iter().find(|p| p.symbol == s).map(|p| p.price).unwrap()
}

#[test]
fn two_providers_weighted_average() {
    let symbols = vec![symbol("x", "x-coin")];
    let replies = vec![
        ok(vec![quote("x", 100 * PRICE_SCALE)], 1),
        ok(vec![quote("x", 200 * PRICE_SCALE)], 3),
    ];
    let prices = aggregate_prices(&symbols, &replies).unwrap();
    assert_eq!(prices.len(), 1);
    assert_eq!(prices[0].symbol, "x");
    assert_eq!(prices[0].price, 175 * PRICE_SCALE);
    assert_eq!(prices[0].change, None);
}

#[test]
fn failed_provider_left_out_of_denominator() {
    let symbols = vec![symbol("x", "x-coin")];
    let replies = vec![
        ok(vec![quote("x", 100 * PRICE_SCALE)], 1),
        failed(FetchError::Network, 3),
    ];
    let prices = aggregate_prices(&symbols, &replies).unwrap();
    assert_eq!(prices[0].price, 100 * PRICE_SCALE);
}

#[test]
fn omitted_symbol_still_counts_weight() {
    let symbols = vec![symbol("x", "x-coin"), symbol("y", "y-coin")];
    let replies = vec![
        ok(vec![quote("x", 100), quote("y", 100)], 1),
        ok(vec![quote("x", 200)], 3),
    ];
    let prices = aggregate_prices(&symbols, &replies).unwrap();
    assert_eq!(price_of(&prices, "x"), 175);
    assert_eq!(price_of(&prices, "y"), 25);
}

#[test]
fn symbol_nobody_quotes_is_zero() {
    let symbols = vec![symbol("x", "x-coin"), symbol("z", "z-coin")];
    let replies = vec![ok(vec![quote("x", 10)], 1)];
    let prices = aggregate_prices(&symbols, &replies).unwrap();
    assert_eq!(prices.len(), 2);
    assert_eq!(price_of(&prices, "z"), 0);
}

#[test]
fn average_rounds_down() {
    let symbols = vec![symbol("x", "x-coin")];
    let replies = vec![ok(vec![quote("x", 1)], 1), ok(vec![quote("x", 2)], 2)];
    let prices = aggregate_prices(&symbols, &replies).unwrap();
    assert_eq!(prices[0].price, 1);
}

#[test]
fn largest_price_and_weight_do_not_overflow() {
    let symbols = vec![symbol("x", "x-coin")];
    let replies = vec![
        ok(vec![quote("x", u64::MAX)], u32::MAX),
        ok(vec![quote("x", u64::MAX)], u32::MAX),
    ];
    let prices = aggregate_prices(&symbols, &replies).unwrap();
    assert_eq!(prices[0].price, u64::MAX);
}

#[test]
fn no_provider_answered() {
    let symbols = vec![symbol("x", "x-coin")];
    let replies = vec![failed(FetchError::Network, 1), failed(FetchError::Parse, 1)];
    assert_eq!(aggregate_prices(&symbols, &replies).unwrap_err(), AggregationError::NoProvider);
    assert_eq!(aggregate_prices(&symbols, &vec![]).unwrap_err(), AggregationError::NoProvider);
}

#[test]
fn zero_total_weight() {
    let symbols = vec![symbol("x", "x-coin")];
    let replies = vec![ok(vec![quote("x", 5)], 0), failed(FetchError::Network, 4)];
    assert_eq!(aggregate_prices(&symbols, &replies).unwrap_err(), AggregationError::NoWeight);
}

#[test]
fn error_message() {
    assert_eq!(AggregationError::NoProvider.message(), "no price found");
    assert_eq!(AggregationError::NoWeight.message(), "no price found");
}

#[test]
fn last_quote_for_a_symbol_wins() {
    let quotes = vec![quote("x", 1), quote("y", 2), quote("x", 3)];
    assert_eq!(find_quote(&quotes, &"x".to_owned()), Some(3));
    assert_eq!(find_quote(&quotes, &"y".to_owned()), Some(2));
    assert_eq!(find_quote(&quotes, &"w".to_owned()), None);
}

#[test]
fn new_service_is_empty_and_unservable() {
    let service = Service::new(Config::default());
    assert!(!service.is_servable());
    assert!(service.get_prices().is_empty());
    assert_eq!(service.config().symbols.len(), 7);
}

#[test]
fn snapshot_covers_configured_symbols() {
    let mut service = Service::new(config_with(vec![
        symbol("a", "a-coin"),
        symbol("b", "b-coin"),
        symbol("c", "c-coin"),
    ]));
    let replies = vec![ok(vec![quote("a", 1), quote("q", 7)], 1)];
    assert_eq!(service.refresh(&replies), Ok(()));
    let mut keys: Vec<String> = service.get_prices().into_iter().map(|p| p.symbol).collect();
    keys.sort();
    assert_eq!(keys, vec!["a".to_owned(), "b".to_owned(), "c".to_owned()]);
}

#[test]
fn all_failed_keeps_last_snapshot() {
    let mut service = Service::new(config_with(vec![symbol("x", "x-coin")]));
    service.refresh(&vec![ok(vec![quote("x", 42)], 2)]).unwrap();
    assert!(service.is_servable());
    let before = service.get_prices();
    let outcome = service.refresh(&vec![failed(FetchError::Network, 2), failed(FetchError::Parse, 1)]);
    assert_eq!(outcome, Err(AggregationError::NoProvider));
    assert!(!service.is_servable());
    let after = service.get_prices();
    assert_eq!(after.len(), before.len());
    assert_eq!(after[0].symbol, before[0].symbol);
    assert_eq!(after[0].price, 42);
}

#[test]
fn success_after_failure_is_servable_again() {
    let mut service = Service::new(config_with(vec![symbol("x", "x-coin")]));
    assert_eq!(service.refresh(&vec![]), Err(AggregationError::NoProvider));
    assert!(!service.is_servable());
    assert!(service.get_prices().is_empty());
    service.refresh(&vec![ok(vec![quote("x", 9)], 1)]).unwrap();
    assert!(service.is_servable());
    assert_eq!(service.get_prices()[0].price, 9);
}

#[test]
fn refresh_replaces_the_whole_snapshot() {
    let mut service = Service::new(config_with(vec![symbol("x", "x-coin"), symbol("y", "y-coin")]));
    service.refresh(&vec![ok(vec![quote("x", 1), quote("y", 2)], 1)]).unwrap();
    service.refresh(&vec![ok(vec![quote("x", 10)], 1)]).unwrap();
    let prices = service.get_prices();
    assert_eq!(price_of(&prices, "x"), 10);
    assert_eq!(price_of(&prices, "y"), 0);
}

#[test]
fn stable_replies_give_identical_snapshots() {
    let mut service = Service::new(config_with(vec![symbol("x", "x-coin"), symbol("y", "y-coin")]));
    let replies = vec![
        ok(vec![quote("x", 100), quote("y", 7)], 1),
        ok(vec![quote("x", 300)], 2),
    ];
    service.refresh(&replies).unwrap();
    let first = service.get_prices();
    service.refresh(&replies).unwrap();
    let second = service.get_prices();
    assert_eq!(first.len(), second.len());
    for (a, b) in first.iter().zip(second.iter()) {
        assert_eq!(a.symbol, b.symbol);
        assert_eq!(a.price, b.price);
        assert_eq!(a.change, b.change);
    }
    assert_eq!(price_of(&first, "x"), 233);
}

#[test]
fn avg_prices_uses_configured_symbols() {
    let service = Service::new(config_with(vec![symbol("x", "x-coin")]));
    let prices = service.avg_prices(&vec![ok(vec![quote("x", 8), quote("y", 5)], 4)]).unwrap();
    assert_eq!(prices.len(), 1);
    assert_eq!(prices[0].price, 8);
}

#[test]
fn symbol_configured_twice_is_published_once() {
    let symbols = vec![symbol("x", "x-coin"), symbol("y", "y-coin"), symbol("x", "x-coin")];
    let replies = vec![ok(vec![quote("x", 6), quote("y", 4)], 2)];
    let prices = aggregate_prices(&symbols, &replies).unwrap();
    assert_eq!(prices.len(), 2);
    assert_eq!((prices[0].symbol.as_str(), prices[0].price), ("x", 6));
    assert_eq!((prices[1].symbol.as_str(), prices[1].price), ("y", 4));
}

#[test]
fn failed_provider_anywhere_changes_nothing() {
    let symbols = vec![symbol("x", "x-coin")];
    let with_failure = vec![
        ok(vec![quote("x", 100)], 1),
        failed(FetchError::Parse, 7),
        ok(vec![quote("x", 200)], 3),
    ];
    let without = vec![ok(vec![quote("x", 100)], 1), ok(vec![quote("x", 200)], 3)];
    let a = aggregate_prices(&symbols, &with_failure).unwrap();
    let b = aggregate_prices(&symbols, &without).unwrap();
    assert_eq!(a[0].price, b[0].price);
    assert_eq!(a[0].price, 175);
}

#[test]
fn omitting_provider_in_front_keeps_its_weight() {
    let symbols = vec![symbol("y", "y-coin")];
    let replies = vec![ok(vec![quote("x", 1)], 3), ok(vec![quote("y", 100)], 1)];
    let prices = aggregate_prices(&symbols, &replies).unwrap();
    assert_eq!(prices[0].price, 25);
}
