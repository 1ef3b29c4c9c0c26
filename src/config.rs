use vstd::prelude::*;
use vstd::string::StringExecFns;

verus! {

/// Settings of the service: fixed at startup, read-only afterwards.
#[derive(Debug, Clone)]
pub struct Config {
    /// Seconds between two refresh cycles.
    pub worker_interval_secs: u64,
    pub http_port: String,
    pub providers: Providers,
    /// The symbol universe, in order.
    pub symbols: Vec<SymbolInfo>,
}

/// Per-provider settings.
#[derive(Debug, Clone)]
pub struct Providers {
    /// Carried with the settings; the aggregation does not read it.
    pub threshold_change: u32,
    pub binance: ProviderInfo,
    pub coingecko: ProviderInfo,
    pub okx: ProviderInfo,
}

/// Where a provider is reached, and its weight in the average. Only the
/// ratio between weights matters: weights 0.5 and 1.0 are written 1 and 2.
#[derive(Debug, Clone)]
pub struct ProviderInfo {
    pub url: String,
    pub weight: u32,
}

/// One asset of the configured symbol universe.
#[derive(Debug, Clone)]
pub struct SymbolInfo {
    /// Canonical identifier of the coin, in lower case.
    pub symbol: String,
    /// Identifier of the same coin at CoinGecko.
    pub ckg_id: String,
}

/// The default symbol universe as (symbol, CoinGecko id) pairs.
pub open spec fn default_symbols() -> Seq<(Seq<char>, Seq<char>)> {
    seq![
        ("eth"@, "ethereum"@),
        ("bnb"@, "binancecoin"@),
        ("btc"@, "bitcoin"@),
        ("doge"@, "dogecoin"@),
        ("shib"@, "shiba-inu"@),
        ("lunc"@, "terra-luna"@),
        ("usdt"@, "tether"@),
    ]
}

fn symbol_info(symbol: &str, ckg_id: &str) -> (r: SymbolInfo)
    ensures
        r.symbol@ == symbol@,
        r.ckg_id@ == ckg_id@,
{
    SymbolInfo { symbol: String::from_str(symbol), ckg_id: String::from_str(ckg_id) }
}

fn provider_info(url: &str, weight: u32) -> (r: ProviderInfo)
    ensures
        r.url@ == url@,
        r.weight == weight,
{
    ProviderInfo { url: String::from_str(url), weight }
}

impl Default for Config {
    fn default() -> (r: Config)
        ensures
            r.worker_interval_secs == 30,
            r.http_port@ == "8087"@,
            r.providers.threshold_change == 10,
            r.providers.binance.url@ == "https://api.binance.com/api/v3"@,
            r.providers.binance.weight == 1,
            r.providers.coingecko.url@ == "https://api.coingecko.com/api/v3"@,
            r.providers.coingecko.weight == 1,
            r.providers.okx.url@ == "https://www.okx.com/priapi/v5"@,
            r.providers.okx.weight == 1,
            r.symbols@.len() == default_symbols().len(),
            forall|i: int|
                0 <= i < r.symbols@.len() ==> (#[trigger] r.symbols@[i]).symbol@
                    == default_symbols()[i].0 && r.symbols@[i].ckg_id@ == default_symbols()[i].1,
    {
        let mut symbols: Vec<SymbolInfo> = Vec::new();
        symbols.push(symbol_info("eth", "ethereum"));
        symbols.push(symbol_info("bnb", "binancecoin"));
        symbols.push(symbol_info("btc", "bitcoin"));
        symbols.push(symbol_info("doge", "dogecoin"));
        symbols.push(symbol_info("shib", "shiba-inu"));
        symbols.push(symbol_info("lunc", "terra-luna"));
        symbols.push(symbol_info("usdt", "tether"));
        Config {
            worker_interval_secs: 30,
            http_port: String::from_str("8087"),
            providers: Providers {
                threshold_change: 10,
                binance: provider_info("https://api.binance.com/api/v3", 1),
                coingecko: provider_info("https://api.coingecko.com/api/v3", 1),
                okx: provider_info("https://www.okx.com/priapi/v5", 1),
            },
            symbols,
        }
    }
}

} // verus!
