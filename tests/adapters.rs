use price_rs::config::Config;
use price_rs::providers::binance::{
    binance_quotes, binance_reply, binance_symbols, binance_url, remove_usdt,
};
use price_rs::providers::coingeko::{coingecko_ids, coingecko_quotes, coingecko_url, symbol_from_cgk_id};
use price_rs::providers::price_text::parse_price;
use price_rs::providers::{FetchError, PriceResponse, Quote, PRICE_SCALE};

fn quote(s: &str, price: u64) -> Quote {
    Quote { symbol: s.to_owned(), price }
}

#[test]
fn coingeko_test_call() {
    let config = Config::default();
    let url = coingecko_url(&config);
    assert_eq!(
        url,
        "https://api.coingecko.com/api/v3/simple/price?ids=ethereum,binancecoin,bitcoin,dogecoin,shiba-inu,terra-luna,tether&vs_currencies=usd&include_market_cap=false&include_24hr_vol=false&include_24hr_change=false&include_last_updated_at=false"
    );
}

#[test]
fn default_config() {
    let config = Config::default();
    assert_eq!(config.worker_interval_secs, 30);
    assert_eq!(config.http_port, "8087");
    assert_eq!(config.providers.binance.url, "https://api.binance.com/api/v3");
    assert_eq!(config.providers.binance.weight, 1);
    assert_eq!(config.providers.coingecko.weight, 1);
    let symbols: Vec<&str> = config.symbols.iter().map(|s| s.symbol.as_str()).collect();
    assert_eq!(symbols, vec!["eth", "bnb", "btc", "doge", "shib", "lunc", "usdt"]);
    assert_eq!(config.symbols[4].ckg_id, "shiba-inu");
}

#[test]
fn remove_usdt_gives_lowercase_symbol() {
    assert_eq!(remove_usdt("BTCUSDT"), "btc");
    assert_eq!(remove_usdt("DOGEUSDT"), "doge");
    assert_eq!(remove_usdt("USDT"), "");
}

#[test]
fn binance_pairs_stop_at_usdt() {
    let config = Config::default();
    let (pairs, has_usdt) = binance_symbols(&config.symbols);
    assert_eq!(pairs, vec!["ETHUSDT", "BNBUSDT", "BTCUSDT", "DOGEUSDT", "SHIBUSDT", "LUNCUSDT"]);
    assert!(has_usdt);
}

#[test]
fn binance_pairs_after_usdt_are_not_asked_for() {
    let mut config = Config::default();
    config.symbols.rotate_right(1);
    assert_eq!(config.symbols[0].symbol, "usdt");
    let (pairs, has_usdt) = binance_symbols(&config.symbols);
    assert!(pairs.is_empty());
    assert!(has_usdt);
    let mut config = Config::default();
    config.symbols.swap(1, 6);
    let (pairs, has_usdt) = binance_symbols(&config.symbols);
    assert_eq!(pairs, vec!["ETHUSDT"]);
    assert!(has_usdt);
}

#[test]
fn binance_pairs_without_usdt() {
    let mut config = Config::default();
    config.symbols.truncate(2);
    let (pairs, has_usdt) = binance_symbols(&config.symbols);
    assert_eq!(pairs, vec!["ETHUSDT", "BNBUSDT"]);
    assert!(!has_usdt);
}

#[test]
fn binance_request_url() {
    let pairs = vec!["BTCUSDT".to_owned(), "BNBUSDT".to_owned()];
    let url = binance_url(&"https://api.binance.com/api/v3".to_owned(), &pairs);
    assert_eq!(url, "https://api.binance.com/api/v3/ticker/price?symbols=[\"BTCUSDT\",\"BNBUSDT\"]");
}

#[test]
fn binance_reply_to_quotes() {
    let entries = vec![quote("BTCUSDT", 5), quote("ETHUSDT", 3)];
    let quotes = binance_quotes(&entries, true);
    assert_eq!(quotes.len(), 3);
    assert_eq!((quotes[0].symbol.as_str(), quotes[0].price), ("btc", 5));
    assert_eq!((quotes[1].symbol.as_str(), quotes[1].price), ("eth", 3));
    assert_eq!((quotes[2].symbol.as_str(), quotes[2].price), ("usdt", PRICE_SCALE));
    assert_eq!(binance_quotes(&entries, false).len(), 2);
}

#[test]
fn coingecko_id_list() {
    let config = Config::default();
    assert_eq!(
        coingecko_ids(&config.symbols),
        "ethereum,binancecoin,bitcoin,dogecoin,shiba-inu,terra-luna,tether"
    );
    assert_eq!(coingecko_ids(&vec![]), "");
}

#[test]
fn coingecko_id_to_symbol() {
    let config = Config::default();
    assert_eq!(symbol_from_cgk_id(&config, "bitcoin"), Some("btc".to_owned()));
    assert_eq!(symbol_from_cgk_id(&config, "tether"), Some("usdt".to_owned()));
    assert_eq!(symbol_from_cgk_id(&config, "solana"), None);
}

#[test]
fn coingecko_reply_to_quotes() {
    let config = Config::default();
    let entries = vec![quote("bitcoin", 11), quote("solana", 4), quote("dogecoin", 2)];
    let quotes = coingecko_quotes(&config, &entries);
    assert_eq!(quotes.len(), 2);
    assert_eq!((quotes[0].symbol.as_str(), quotes[0].price), ("btc", 11));
    assert_eq!((quotes[1].symbol.as_str(), quotes[1].price), ("doge", 2));
}

#[test]
fn price_text_with_fraction() {
    assert_eq!(parse_price(b"64123.45000000"), Some(64_123_450_000_000));
    assert_eq!(parse_price(b"0.5"), Some(500_000_000));
    assert_eq!(parse_price(b"1."), Some(PRICE_SCALE));
}

#[test]
fn price_text_without_fraction() {
    assert_eq!(parse_price(b"1"), Some(PRICE_SCALE));
    assert_eq!(parse_price(b"0"), Some(0));
    assert_eq!(parse_price(b"007"), Some(7 * PRICE_SCALE));
}

#[test]
fn price_text_drops_places_beyond_scale() {
    assert_eq!(parse_price(b"0.000012345678912"), Some(12_345));
    assert_eq!(parse_price(b"2.0000000019"), Some(2_000_000_001));
}

#[test]
fn malformed_price_text() {
    assert_eq!(parse_price(b""), None);
    assert_eq!(parse_price(b"."), None);
    assert_eq!(parse_price(b"+"), None);
    assert_eq!(parse_price(b"1.2.3"), None);
    assert_eq!(parse_price(b"-1"), None);
    assert_eq!(parse_price(b"12a"), None);
    assert_eq!(parse_price(b"1.x"), None);
    assert_eq!(parse_price(b"e5"), None);
    assert_eq!(parse_price(b"1e"), None);
    assert_eq!(parse_price(b"1e+"), None);
    assert_eq!(parse_price(b"1e5x"), None);
    assert_eq!(parse_price(b"++1"), None);
}

#[test]
fn price_text_with_sign_or_bare_fraction() {
    assert_eq!(parse_price(b".5"), Some(500_000_000));
    assert_eq!(parse_price(b"+1"), Some(PRICE_SCALE));
    assert_eq!(parse_price(b"+.25"), Some(250_000_000));
}

#[test]
fn price_text_with_exponent() {
    assert_eq!(parse_price(b"1e5"), Some(100_000 * PRICE_SCALE));
    assert_eq!(parse_price(b"1.2E-5"), Some(12_000));
    assert_eq!(parse_price(b"2.5e+1"), Some(25 * PRICE_SCALE));
    assert_eq!(parse_price(b"123e-2"), Some(1_230_000_000));
    assert_eq!(parse_price(b"1e-9"), Some(1));
    assert_eq!(parse_price(b"1e-10"), Some(0));
    assert_eq!(parse_price(b"5e-99999999999999999999999"), Some(0));
    assert_eq!(parse_price(b"0e99999999999999999999999"), Some(0));
    assert_eq!(parse_price(b"1e10"), Some(10_000_000_000 * PRICE_SCALE));
    assert_eq!(parse_price(b"1e11"), None);
    assert_eq!(parse_price(b"1e99999999999999999999999"), None);
}

#[test]
fn price_text_too_large() {
    assert_eq!(parse_price(b"18446744073"), Some(18_446_744_073_000_000_000));
    assert_eq!(parse_price(b"18446744073.709551615"), Some(u64::MAX));
    assert_eq!(parse_price(b"18446744073.709551616"), None);
    assert_eq!(parse_price(b"18446744074"), None);
    assert_eq!(parse_price(b"99999999999999999999999"), None);
}

fn entry(symbol: &str, price: &str) -> PriceResponse {
    PriceResponse { symbol: symbol.to_owned(), price: price.to_owned() }
}

#[test]
fn binance_reply_reads_entries() {
    let entries = vec![entry("BTCUSDT", "64123.45000000"), entry("SHIBUSDT", "0.00001234")];
    let quotes = binance_reply(&entries, true).unwrap();
    assert_eq!(quotes.len(), 3);
    assert_eq!((quotes[0].symbol.as_str(), quotes[0].price), ("btc", 64_123_450_000_000));
    assert_eq!((quotes[1].symbol.as_str(), quotes[1].price), ("shib", 12_340));
    assert_eq!((quotes[2].symbol.as_str(), quotes[2].price), ("usdt", PRICE_SCALE));
    assert_eq!(binance_reply(&vec![], false).unwrap().len(), 0);
}

#[test]
fn binance_reply_rejects_foreign_pair() {
    let entries = vec![entry("BTCUSDT", "1.0"), entry("BTCEUR", "2.0")];
    assert_eq!(binance_reply(&entries, false).unwrap_err(), FetchError::Parse);
}

#[test]
fn binance_reply_rejects_bad_price() {
    let entries = vec![entry("BTCUSDT", "1.0"), entry("ETHUSDT", "n/a")];
    assert_eq!(binance_reply(&entries, true).unwrap_err(), FetchError::Parse);
}
