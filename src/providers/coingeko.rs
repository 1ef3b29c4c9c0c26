use vstd::prelude::*;
use vstd::string::StringExecFns;

use crate::config::{Config, SymbolInfo};
use crate::providers::{quotes_model, Quote};

verus! {

/// The canonical symbol of the first configured coin with CoinGecko id `id`.
pub open spec fn symbol_for_id(symbols: Seq<SymbolInfo>, id: Seq<char>) -> Option<Seq<char>>
    decreases symbols.len(),
{
    if symbols.len() == 0 {
        None
    } else if symbols[0].ckg_id@ == id {
        Some(symbols[0].symbol@)
    } else {
        symbol_for_id(symbols.subrange(1, symbols.len() as int), id)
    }
}

/// The configured symbols' CoinGecko ids, separated by commas.
pub open spec fn joined_ids(symbols: Seq<SymbolInfo>) -> Seq<char>
    decreases symbols.len(),
{
    if symbols.len() == 0 {
        Seq::empty()
    } else if symbols.len() == 1 {
        symbols[0].ckg_id@
    } else {
        joined_ids(symbols.drop_last()) + ","@ + symbols.last().ckg_id@
    }
}

/// The query parameters that ask for bare US dollar prices.
pub open spec fn price_query() -> Seq<char> {
    "&vs_currencies=usd&include_market_cap=false&include_24hr_vol=false&include_24hr_change=false&include_last_updated_at=false"@
}

/// The quotes by canonical symbol that the (CoinGecko id, price) entries give:
/// an entry whose id is not configured is left out.
pub open spec fn coingecko_quotes_model(symbols: Seq<SymbolInfo>, entries: Seq<Quote>) -> Seq<
    (Seq<char>, u64),
>
    decreases entries.len(),
{
    if entries.len() == 0 {
        Seq::empty()
    } else {
        let rest = coingecko_quotes_model(symbols, entries.drop_last());
        match symbol_for_id(symbols, entries.last().symbol@) {
            Some(symbol) => rest.push((symbol, entries.last().price)),
            None => rest,
        }
    }
}

/// The canonical symbol of the configured coin with CoinGecko id `id`.
pub fn symbol_from_cgk_id(config: &Config, id: &str) -> (r: Option<String>)
    ensures
        r matches Some(s) ==> symbol_for_id(config.symbols@, id@) == Some(s@),
        r is None ==> symbol_for_id(config.symbols@, id@) is None,
{
    symbol_for_ckg_id(&config.symbols, id)
}

fn symbol_for_ckg_id(symbols: &Vec<SymbolInfo>, id: &str) -> (r: Option<String>)
    ensures
        r matches Some(s) ==> symbol_for_id(symbols@, id@) == Some(s@),
        r is None ==> symbol_for_id(symbols@, id@) is None,
{
    let wanted = id.to_owned();
    let mut i: usize = 0;
    assert(symbols@.subrange(0, symbols@.len() as int) =~= symbols@);
    while i < symbols.len()
        invariant
            i <= symbols@.len(),
            wanted@ == id@,
            symbol_for_id(symbols@, id@) == symbol_for_id(
                symbols@.subrange(i as int, symbols@.len() as int),
                id@,
            ),
        decreases symbols@.len() - i,
    {
        let rest = Ghost(symbols@.subrange(i as int, symbols@.len() as int));
        assert(rest@[0] == symbols@[i as int]);
        assert(rest@.subrange(1, rest@.len() as int) =~= symbols@.subrange(
            i + 1,
            symbols@.len() as int,
        ));
        if symbols[i].ckg_id == wanted {
            assert(symbol_for_id(rest@, id@) == Some(symbols@[i as int].symbol@));
            return Some(symbols[i].symbol.clone());
        }
        i = i + 1;
    }
    None
}

/// The configured symbols' CoinGecko ids, separated by commas.
pub fn coingecko_ids(symbols: &Vec<SymbolInfo>) -> (r: String)
    ensures
        r@ == joined_ids(symbols@),
{
    let mut ids = String::new();
    let mut i: usize = 0;
    while i < symbols.len()
        invariant
            i <= symbols@.len(),
            ids@ == joined_ids(symbols@.subrange(0, i as int)),
        decreases symbols@.len() - i,
    {
        let ghost next = symbols@.subrange(0, i + 1);
        assert(next.drop_last() =~= symbols@.subrange(0, i as int));
        if i > 0 {
            ids.append(",");
        }
        ids.append(symbols[i].ckg_id.as_str());
        proof {
            if i == 0 {
                assert(ids@ =~= joined_ids(next));
            }
        }
        i = i + 1;
    }
    assert(symbols@.subrange(0, symbols@.len() as int) =~= symbols@);
    ids
}

/// The simple price endpoint for all configured coins in US dollars, under
/// the configured CoinGecko base.
pub fn coingecko_url(config: &Config) -> (r: String)
    ensures
        r@ == config.providers.coingecko.url@ + "/simple/price?ids="@ + joined_ids(
            config.symbols@,
        ) + price_query(),
{
    let mut url = config.providers.coingecko.url.clone();
    url.append("/simple/price?ids=");
    url.append(coingecko_ids(&config.symbols).as_str());
    url.append(
        "&vs_currencies=usd&include_market_cap=false&include_24hr_vol=false&include_24hr_change=false&include_last_updated_at=false",
    );
    url
}

/// Turns the (CoinGecko id, price) entries of a reply into quotes by canonical
/// symbol, leaving out ids that are not configured.
pub fn coingecko_quotes(config: &Config, entries: &Vec<Quote>) -> (r: Vec<Quote>)
    ensures
        quotes_model(r@) == coingecko_quotes_model(config.symbols@, entries@),
{
    let mut quotes: Vec<Quote> = Vec::new();
    let mut i: usize = 0;
    while i < entries.len()
        invariant
            i <= entries@.len(),
            quotes_model(quotes@) == coingecko_quotes_model(
                config.symbols@,
                entries@.subrange(0, i as int),
            ),
        decreases entries@.len() - i,
    {
        let ghost next = entries@.subrange(0, i + 1);
        assert(next.drop_last() =~= entries@.subrange(0, i as int));
        let e = &entries[i];
        if let Some(symbol) = symbol_from_cgk_id(config, e.symbol.as_str()) {
            quotes.push(Quote { symbol, price: e.price });
            assert(quotes_model(quotes@) =~= coingecko_quotes_model(config.symbols@, next));
        }
        i = i + 1;
    }
    assert(entries@.subrange(0, entries@.len() as int) =~= entries@);
    quotes
}

} // verus!
