use vstd::prelude::*;
use vstd::string::StringExecFns;

use crate::config::SymbolInfo;
use vstd::utf8::encode_utf8;

use crate::providers::price_text::{parse_price, price_of_text};
use crate::providers::{quotes_model, FetchError, PriceResponse, Quote, PRICE_SCALE};

verus! {

/// What `str::to_lowercase` makes of a text.
pub uninterp spec fn lower_of(s: Seq<char>) -> Seq<char>;

/// What `str::to_uppercase` makes of a text.
pub uninterp spec fn upper_of(s: Seq<char>) -> Seq<char>;

/// The JSON text that serde_json writes for an array of strings.
pub uninterp spec fn json_array_of(items: Seq<Seq<char>>) -> Seq<char>;

/// Relies on `str::strip_suffix`: the text before `suffix` when `s` ends
/// with it, and nothing otherwise.
#[verifier::external_body]
fn strip_suffix<'a>(s: &'a str, suffix: &str) -> (r: Option<&'a str>)
    ensures
        r is Some <==> suffix@.is_suffix_of(s@),
        r matches Some(p) ==> p@ == s@.subrange(0, s@.len() - suffix@.len()),
{
    s.strip_suffix(suffix)
}

/// Relies on `str::to_lowercase`: the result depends on the characters alone.
#[verifier::external_body]
fn lowercase(s: &str) -> (r: String)
    ensures
        r@ == lower_of(s@),
        s@.len() == 0 ==> r@.len() == 0,
{
    s.to_lowercase()
}

/// Relies on `str::to_uppercase`: the result depends on the characters alone.
#[verifier::external_body]
fn uppercase(s: &str) -> (r: String)
    ensures
        r@ == upper_of(s@),
        s@.len() == 0 ==> r@.len() == 0,
{
    s.to_uppercase()
}

/// Relies on `serde_json::to_string`: the JSON text of the array, which
/// depends on the strings alone. Writing strings into a `Vec` cannot fail: the
/// serializer fails only on an I/O error of its writer, on a failing
/// `Serialize` impl, or on a map with non-string keys.
#[verifier::external_body]
fn json_text(items: &Vec<String>) -> (r: Option<String>)
    ensures
        r is Some,
        r matches Some(t) ==> t@ == json_array_of(items@.map_values(|s: String| s@)),
{
    serde_json::to_string(items).ok()
}

/// The quote currency's suffix on the exchange's pairs.
pub open spec fn usdt_suffix() -> Seq<char> {
    "USDT"@
}

/// The exchange's pair for a canonical symbol, against USDT.
pub open spec fn pair_of(symbol: Seq<char>) -> Seq<char> {
    upper_of(symbol) + usdt_suffix()
}

/// The canonical symbol of a pair against USDT.
pub open spec fn symbol_of_pair(pair: Seq<char>) -> Seq<char> {
    lower_of(pair.subrange(0, pair.len() - 4))
}

/// The canonical symbol of an exchange pair such as `BTCUSDT`.
pub fn remove_usdt(s: &str) -> (r: String)
    requires
        usdt_suffix().is_suffix_of(s@),
    ensures
        r@ == symbol_of_pair(s@),
{
    proof {
        reveal_strlit("USDT");
    }
    let stripped = strip_suffix(s, "USDT");
    match stripped {
        Some(p) => lowercase(p),
        None => {
            assert(false);
            String::new()
        },
    }
}

/// Index of the first configured `usdt`, or the number of symbols where there
/// is none.
pub open spec fn usdt_index(symbols: Seq<SymbolInfo>) -> int
    decreases symbols.len(),
{
    if symbols.len() == 0 {
        0
    } else if symbols[0].symbol@ == "usdt"@ {
        0
    } else {
        1 + usdt_index(symbols.subrange(1, symbols.len() as int))
    }
}

/// The pairs to ask the exchange for: one per configured symbol before the
/// first `usdt`, in order.
pub open spec fn binance_pairs(symbols: Seq<SymbolInfo>) -> Seq<Seq<char>> {
    symbols.take(usdt_index(symbols)).map_values(|s: SymbolInfo| pair_of(s.symbol@))
}

/// Whether `usdt` is among the configured symbols.
pub open spec fn has_usdt(symbols: Seq<SymbolInfo>) -> bool {
    exists|i: int| 0 <= i < symbols.len() && symbols[i].symbol@ == "usdt"@
}

proof fn lemma_usdt_index(symbols: Seq<SymbolInfo>)
    ensures
        0 <= usdt_index(symbols) <= symbols.len(),
        forall|i: int| 0 <= i < usdt_index(symbols) ==> symbols[i].symbol@ != "usdt"@,
        usdt_index(symbols) < symbols.len() ==> symbols[usdt_index(symbols)].symbol@ == "usdt"@,
    decreases symbols.len(),
{
    if symbols.len() > 0 && symbols[0].symbol@ != "usdt"@ {
        let rest = symbols.subrange(1, symbols.len() as int);
        lemma_usdt_index(rest);
        assert forall|i: int| 0 <= i < usdt_index(symbols) implies symbols[i].symbol@ != "usdt"@ by {
            if i > 0 {
                assert(symbols[i] == rest[i - 1]);
            }
        }
    }
}

/// The pairs to ask the exchange for: one per configured symbol, in order,
/// up to the first `usdt`, which is priced at one without asking; symbols
/// after it are not asked for. The flag tells whether `usdt` was configured.
pub fn binance_symbols(symbols: &Vec<SymbolInfo>) -> (r: (Vec<String>, bool))
    ensures
        r.0@.map_values(|s: String| s@) == binance_pairs(symbols@),
        r.1 == has_usdt(symbols@),
{
    proof {
        lemma_usdt_index(symbols@);
    }
    let usdt = String::from_str("usdt");
    let mut pairs: Vec<String> = Vec::new();
    let mut i: usize = 0;
    while i < symbols.len()
        invariant
            i <= symbols@.len(),
            usdt@ == "usdt"@,
            i <= usdt_index(symbols@) <= symbols@.len(),
            usdt_index(symbols@) < symbols@.len() ==> symbols@[usdt_index(symbols@)].symbol@ == "usdt"@,
            forall|k: int| 0 <= k < usdt_index(symbols@) ==> symbols@[k].symbol@ != "usdt"@,
            pairs@.len() == i,
            forall|k: int| 0 <= k < i ==> (#[trigger] pairs@[k])@ == pair_of(symbols@[k].symbol@),
        decreases symbols@.len() - i,
    {
        if symbols[i].symbol == usdt {
            assert(pairs@.map_values(|s: String| s@) =~= binance_pairs(symbols@));
            return (pairs, true);
        }
        let pair = uppercase(symbols[i].symbol.as_str()).concat("USDT");
        pairs.push(pair);
        i = i + 1;
    }
    assert(pairs@.map_values(|s: String| s@) =~= binance_pairs(symbols@));
    assert(!has_usdt(symbols@)) by {
        if has_usdt(symbols@) {
            let k = choose|k: int| 0 <= k < symbols@.len() && symbols@[k].symbol@ == "usdt"@;
            assert(k < usdt_index(symbols@));
        }
    }
    (pairs, false)
}

/// The exchange's price endpoint for the given pairs, under `base`.
pub fn binance_url(base: &String, pairs: &Vec<String>) -> (r: String)
    ensures
        r@ == base@ + "/ticker/price?symbols="@ + json_array_of(pairs@.map_values(|s: String| s@)),
{
    let json = json_text(pairs);
    match json {
        Some(json) => {
            let mut url = base.clone();
            url.append("/ticker/price?symbols=");
            url.append(json.as_str());
            url
        },
        None => {
            assert(false);
            String::new()
        },
    }
}

/// The quotes of the exchange's reply, keyed by canonical symbol, followed by
/// `usdt` at one where it was configured.
pub open spec fn binance_quotes_model(entries: Seq<Quote>, has_usdt: bool) -> Seq<(Seq<char>, u64)> {
    let listed = entries.map_values(|e: Quote| (symbol_of_pair(e.symbol@), e.price));
    if has_usdt {
        listed.push(("usdt"@, PRICE_SCALE))
    } else {
        listed
    }
}

/// Turns the exchange's (pair, price) entries into quotes by canonical symbol,
/// adding `usdt` at one where it was configured.
pub fn binance_quotes(entries: &Vec<Quote>, has_usdt: bool) -> (r: Vec<Quote>)
    requires
        forall|i: int| 0 <= i < entries@.len() ==> usdt_suffix().is_suffix_of(#[trigger] entries@[i].symbol@),
    ensures
        quotes_model(r@) == binance_quotes_model(entries@, has_usdt),
{
    let mut quotes: Vec<Quote> = Vec::new();
    let mut i: usize = 0;
    while i < entries.len()
        invariant
            i <= entries@.len(),
            forall|k: int| 0 <= k < entries@.len() ==> usdt_suffix().is_suffix_of(#[trigger] entries@[k].symbol@),
            quotes@.len() == i,
            forall|k: int|
                0 <= k < i ==> (#[trigger] quotes@[k]).symbol@ == symbol_of_pair(entries@[k].symbol@)
                    && quotes@[k].price == entries@[k].price,
        decreases entries@.len() - i,
    {
        let e = &entries[i];
        let symbol = remove_usdt(e.symbol.as_str());
        quotes.push(Quote { symbol, price: e.price });
        i = i + 1;
    }
    if has_usdt {
        quotes.push(Quote { symbol: String::from_str("usdt"), price: PRICE_SCALE });
    }
    assert(quotes_model(quotes@) =~= binance_quotes_model(entries@, has_usdt));
    quotes
}

/// Whether a reply entry names a pair against USDT and carries a price text
/// that reads as a fixed-point price.
pub open spec fn entry_ok(e: PriceResponse) -> bool {
    &&& usdt_suffix().is_suffix_of(e.symbol@)
    &&& price_of_text(encode_utf8(e.price@)) is Some
}

/// The quotes of a well-formed reply, keyed by canonical symbol, followed by
/// `usdt` at one where it was configured.
pub open spec fn binance_reply_model(entries: Seq<PriceResponse>, has_usdt: bool) -> Seq<
    (Seq<char>, u64),
> {
    let listed = entries.map_values(
        |e: PriceResponse| (symbol_of_pair(e.symbol@), price_of_text(encode_utf8(e.price@))->Some_0),
    );
    if has_usdt {
        listed.push(("usdt"@, PRICE_SCALE))
    } else {
        listed
    }
}

/// Turns the exchange's reply entries into quotes by canonical symbol, adding
/// `usdt` at one where it was configured. A reply with an entry that is not a
/// pair against USDT, or whose price does not read, is a parse failure.
pub fn binance_reply(entries: &Vec<PriceResponse>, has_usdt: bool) -> (r: Result<Vec<Quote>, FetchError>)
    ensures
        r is Ok <==> (forall|i: int| 0 <= i < entries@.len() ==> entry_ok(#[trigger] entries@[i])),
        r is Err ==> r == Err::<Vec<Quote>, FetchError>(FetchError::Parse),
        r matches Ok(q) ==> quotes_model(q@) == binance_reply_model(entries@, has_usdt),
{
    proof {
        reveal_strlit("USDT");
    }
    let mut raw: Vec<Quote> = Vec::new();
    let mut i: usize = 0;
    while i < entries.len()
        invariant
            i <= entries@.len(),
            raw@.len() == i,
            forall|k: int| 0 <= k < i ==> entry_ok(#[trigger] entries@[k]),
            forall|k: int|
                0 <= k < i ==> (#[trigger] raw@[k]).symbol@ == entries@[k].symbol@ && raw@[k].price
                    == price_of_text(encode_utf8(entries@[k].price@))->Some_0,
        decreases entries@.len() - i,
    {
        let e = &entries[i];
        if strip_suffix(e.symbol.as_str(), "USDT").is_none() {
            assert(!entry_ok(entries@[i as int]));
            return Err(FetchError::Parse);
        }
        match parse_price(e.price.as_str().as_bytes()) {
            Some(price) => {
                raw.push(Quote { symbol: e.symbol.clone(), price });
            },
            None => {
                assert(!entry_ok(entries@[i as int]));
                return Err(FetchError::Parse);
            },
        }
        i = i + 1;
    }
    let quotes = binance_quotes(&raw, has_usdt);
    assert(binance_quotes_model(raw@, has_usdt) =~= binance_reply_model(entries@, has_usdt));
    Ok(quotes)
}

} // verus!
