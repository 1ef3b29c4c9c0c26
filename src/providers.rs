pub mod binance;
pub mod coingeko;
pub mod price_text;

use vstd::arithmetic::div_mod::{lemma_div_by_multiple, lemma_div_is_ordered};
use vstd::prelude::*;

use crate::config::{Config, SymbolInfo};

verus! {

/// Prices are fixed-point integers: this many units make one unit of the
/// quote currency.
pub const PRICE_SCALE: u64 = 1_000_000_000;

/// One provider's price for one symbol, in units of `PRICE_SCALE`.
#[derive(Debug, Clone)]
pub struct Quote {
    pub symbol: String,
    pub price: u64,
}

/// A price entry of a provider's reply as text: the provider's own symbol
/// and a decimal price.
#[derive(Debug, Clone)]
pub struct PriceResponse {
    pub symbol: String,
    pub price: String,
}

/// The published price of one symbol.
#[derive(Debug, Clone)]
pub struct PriceInfo {
    pub symbol: String,
    /// Weighted average of the providers' prices, in units of `PRICE_SCALE`.
    pub price: u64,
    /// Percent change; never filled in by the aggregation.
    pub change: Option<i64>,
}

/// Why one provider's fetch failed.
#[derive(Debug, Clone, Copy, PartialEq, Eq, Structural)]
pub enum FetchError {
    /// Transport failure or timeout.
    Network,
    /// The reply did not have the expected shape.
    Parse,
}

/// Why a whole refresh cycle failed.
#[derive(Debug, Clone, Copy, PartialEq, Eq, Structural)]
pub enum AggregationError {
    /// No provider answered.
    NoProvider,
    /// The providers that answered have a total weight of zero.
    NoWeight,
}

impl AggregationError {
    /// The text that a failed cycle is logged with.
    pub fn message(&self) -> (r: String)
        ensures
            r@ == "no price found"@,
    {
        String::from_str("no price found")
    }
}

/// What one provider's fetch gave in a refresh cycle, with that provider's weight.
pub struct ProviderReply {
    pub quotes: Result<Vec<Quote>, FetchError>,
    pub weight: u32,
}

/// A snapshot as a sequence of (symbol, price) pairs.
pub type PricesModel = Seq<(Seq<char>, int)>;

/// The price that `quotes` give for `symbol`: the last entry for it wins, as
/// when the quotes are inserted into a map in order.
pub open spec fn quote_price(quotes: Seq<Quote>, symbol: Seq<char>) -> Option<u64>
    decreases quotes.len(),
{
    if quotes.len() == 0 {
        None
    } else if quotes.last().symbol@ == symbol {
        Some(quotes.last().price)
    } else {
        quote_price(quotes.drop_last(), symbol)
    }
}

/// Number of providers whose fetch succeeded.
pub open spec fn ok_count(replies: Seq<ProviderReply>) -> nat
    decreases replies.len(),
{
    if replies.len() == 0 {
        0
    } else {
        ok_count(replies.drop_last()) + if replies.last().quotes is Ok {
            1nat
        } else {
            0nat
        }
    }
}

/// Weight that one reply brings to the denominator.
pub open spec fn reply_weight(reply: ProviderReply) -> int {
    if reply.quotes is Ok {
        reply.weight as int
    } else {
        0
    }
}

/// Sum of the weights of the providers whose fetch succeeded.
pub open spec fn total_weight(replies: Seq<ProviderReply>) -> int
    decreases replies.len(),
{
    if replies.len() == 0 {
        0
    } else {
        total_weight(replies.drop_last()) + reply_weight(replies.last())
    }
}

/// What one reply adds to the numerator of `symbol`'s average: its price
/// times its weight, or nothing where it failed or did not quote the symbol.
pub open spec fn contribution(reply: ProviderReply, symbol: Seq<char>) -> int {
    match reply.quotes {
        Ok(quotes) => match quote_price(quotes@, symbol) {
            Some(p) => p as int * reply.weight as int,
            None => 0,
        },
        Err(_) => 0,
    }
}

/// Numerator of `symbol`'s weighted average.
pub open spec fn weighted_sum(replies: Seq<ProviderReply>, symbol: Seq<char>) -> int
    decreases replies.len(),
{
    if replies.len() == 0 {
        0
    } else {
        weighted_sum(replies.drop_last(), symbol) + contribution(replies.last(), symbol)
    }
}

/// Whether the symbol at `j` already stands at an earlier index.
pub open spec fn listed_before(symbols: Seq<SymbolInfo>, j: int) -> bool {
    exists|k: int| 0 <= k < j && symbols[k].symbol@ == symbols[j].symbol@
}

/// The configured symbols, each once, in the order of first appearance.
pub open spec fn distinct_symbols(symbols: Seq<SymbolInfo>) -> Seq<Seq<char>>
    decreases symbols.len(),
{
    if symbols.len() == 0 {
        Seq::empty()
    } else {
        let rest = distinct_symbols(symbols.drop_last());
        if listed_before(symbols, symbols.len() - 1) {
            rest
        } else {
            rest.push(symbols.last().symbol@)
        }
    }
}

/// The weighted average of `symbol`, rounded down.
pub open spec fn average_of(replies: Seq<ProviderReply>, symbol: Seq<char>) -> int {
    weighted_sum(replies, symbol) / total_weight(replies)
}

/// The outcome of one aggregation pass: one entry per configured symbol.
pub open spec fn aggregate(symbols: Seq<SymbolInfo>, replies: Seq<ProviderReply>) -> Result<
    PricesModel,
    AggregationError,
> {
    if ok_count(replies) == 0 {
        Err(AggregationError::NoProvider)
    } else if total_weight(replies) <= 0 {
        Err(AggregationError::NoWeight)
    } else {
        Ok(distinct_symbols(symbols).map_values(|y: Seq<char>| (y, average_of(replies, y))))
    }
}

/// No symbol stands twice in a snapshot.
pub open spec fn keys_distinct(prices: PricesModel) -> bool {
    forall|i: int, j: int| 0 <= i < j < prices.len() ==> prices[i].0 != prices[j].0
}

/// A provider's quotes as (symbol, price) pairs.
pub open spec fn quotes_model(quotes: Seq<Quote>) -> Seq<(Seq<char>, u64)> {
    quotes.map_values(|q: Quote| (q.symbol@, q.price))
}

/// A snapshot's (symbol, price) pairs.
pub open spec fn prices_model(prices: Seq<PriceInfo>) -> PricesModel {
    prices.map_values(|p: PriceInfo| (p.symbol@, p.price as int))
}

/// No price in the snapshot carries a change.
pub open spec fn no_change(prices: Seq<PriceInfo>) -> bool {
    forall|i: int| 0 <= i < prices.len() ==> #[trigger] prices[i].change is None
}

/// An aggregation outcome with the snapshot seen as (symbol, price) pairs.
pub open spec fn outcome_model(r: Result<Vec<PriceInfo>, AggregationError>) -> Result<
    PricesModel,
    AggregationError,
> {
    match r {
        Ok(v) => Ok(prices_model(v@)),
        Err(e) => Err(e),
    }
}

/// The symbols that a snapshot holds.
pub open spec fn key_set(prices: PricesModel) -> Set<Seq<char>> {
    Set::new(|k: Seq<char>| exists|i: int| 0 <= i < prices.len() && prices[i].0 == k)
}

/// The configured symbol universe.
pub open spec fn universe(symbols: Seq<SymbolInfo>) -> Set<Seq<char>> {
    Set::new(|k: Seq<char>| exists|i: int| 0 <= i < symbols.len() && symbols[i].symbol@ == k)
}

proof fn lemma_total_weight_bound(replies: Seq<ProviderReply>)
    ensures
        0 <= total_weight(replies) <= replies.len() * (u32::MAX as int),
    decreases replies.len(),
{
    if replies.len() > 0 {
        lemma_total_weight_bound(replies.drop_last());
        assert(total_weight(replies) <= replies.len() * (u32::MAX as int)) by (nonlinear_arith)
            requires
                total_weight(replies) <= total_weight(replies.drop_last()) + u32::MAX,
                total_weight(replies.drop_last()) <= (replies.len() - 1) * (u32::MAX as int),
        ;
    }
}

proof fn lemma_total_weight_prefix(replies: Seq<ProviderReply>, i: int)
    requires
        0 <= i <= replies.len(),
    ensures
        total_weight(replies.subrange(0, i)) <= total_weight(replies),
    decreases replies.len(),
{
    if i < replies.len() {
        assert(replies.drop_last().subrange(0, i) =~= replies.subrange(0, i));
        lemma_total_weight_prefix(replies.drop_last(), i);
    } else {
        assert(replies.subrange(0, i) =~= replies);
    }
}

proof fn lemma_weighted_sum_bound(replies: Seq<ProviderReply>, symbol: Seq<char>)
    ensures
        0 <= weighted_sum(replies, symbol) <= (u64::MAX as int) * total_weight(replies),
    decreases replies.len(),
{
    if replies.len() > 0 {
        lemma_weighted_sum_bound(replies.drop_last(), symbol);
        let last = replies.last();
        let c = contribution(last, symbol);
        let w = reply_weight(last);
        assert(0 <= c <= (u64::MAX as int) * w) by {
            if let Ok(q) = last.quotes {
                if let Some(p) = quote_price(q@, symbol) {
                    assert(p as int * last.weight as int <= (u64::MAX as int) * last.weight as int)
                        by (nonlinear_arith);
                }
            }
        }
        let ws = weighted_sum(replies.drop_last(), symbol);
        let tw = total_weight(replies.drop_last());
        assert(ws + c <= (u64::MAX as int) * (tw + w)) by (nonlinear_arith)
            requires
                ws <= (u64::MAX as int) * tw,
                c <= (u64::MAX as int) * w,
        ;
    }
}

/// The last price that `quotes` give for `symbol`.
pub fn find_quote(quotes: &Vec<Quote>, symbol: &String) -> (r: Option<u64>)
    ensures
        r == quote_price(quotes@, symbol@),
{
    let mut i: usize = quotes.len();
    assert(quotes@.subrange(0, i as int) =~= quotes@);
    while i > 0
        invariant
            i <= quotes@.len(),
            quote_price(quotes@, symbol@) == quote_price(quotes@.subrange(0, i as int), symbol@),
        decreases i,
    {
        let q = &quotes[i - 1];
        let prefix = Ghost(quotes@.subrange(0, i as int));
        assert(prefix@.drop_last() =~= quotes@.subrange(0, i - 1));
        if q.symbol == *symbol {
            return Some(q.price);
        }
        i = i - 1;
    }
    None
}

/// Averages the providers' prices for every configured symbol, each once in
/// the order of its first appearance, weighting each provider by its weight.
/// Failed providers are left out. A provider that did not quote a symbol adds
/// nothing to that symbol's numerator while its weight still counts in the
/// denominator. The average is rounded down.
pub fn aggregate_prices(symbols: &Vec<SymbolInfo>, replies: &Vec<ProviderReply>) -> (r: Result<
    Vec<PriceInfo>,
    AggregationError,
>)
    requires
        replies@.len() <= u32::MAX,
    ensures
        outcome_model(r) == aggregate(symbols@, replies@),
        r is Ok ==> no_change(r->Ok_0@),
{
    let n = replies.len();
    let mut n_ok: usize = 0;
    let mut total: u64 = 0;
    let mut i: usize = 0;
    while i < n
        invariant
            n == replies@.len() <= u32::MAX,
            i <= n,
            n_ok <= i,
            n_ok == ok_count(replies@.subrange(0, i as int)),
            total == total_weight(replies@.subrange(0, i as int)),
        decreases n - i,
    {
        let reply = &replies[i];
        assert(replies@.subrange(0, i + 1).drop_last() =~= replies@.subrange(0, i as int));
        proof {
            lemma_total_weight_bound(replies@.subrange(0, i + 1));
            assert((i + 1) * (u32::MAX as int) <= u64::MAX) by (nonlinear_arith)
                requires
                    i < u32::MAX,
            ;
        }
        if reply.quotes.is_ok() {
            n_ok = n_ok + 1;
            total = total + reply.weight as u64;
        }
        i = i + 1;
    }
    assert(replies@.subrange(0, n as int) =~= replies@);
    if n_ok == 0 {
        return Err(AggregationError::NoProvider);
    }
    if total == 0 {
        return Err(AggregationError::NoWeight);
    }
    let ghost tw = total_weight(replies@);
    let mut result: Vec<PriceInfo> = Vec::new();
    let mut j: usize = 0;
    while j < symbols.len()
        invariant
            n == replies@.len(),
            j <= symbols@.len(),
            total == tw > 0,
            tw == total_weight(replies@),
            tw <= u64::MAX,
            result@.len() == distinct_symbols(symbols@.subrange(0, j as int)).len(),
            forall|k: int|
                0 <= k < result@.len() ==> {
                    &&& (#[trigger] result@[k]).symbol@ == distinct_symbols(
                        symbols@.subrange(0, j as int),
                    )[k]
                    &&& result@[k].price == average_of(replies@, result@[k].symbol@)
                    &&& result@[k].change is None
                },
        decreases symbols@.len() - j,
    {
        let ghost prefix = symbols@.subrange(0, j as int);
        let ghost next = symbols@.subrange(0, j + 1);
        assert(next.drop_last() =~= prefix);
        let symbol = &symbols[j].symbol;
        let mut seen = false;
        let mut k: usize = 0;
        while k < j
            invariant
                k <= j < symbols@.len(),
                next == symbols@.subrange(0, j + 1),
                symbol@ == next[j as int].symbol@,
                seen == exists|m: int| 0 <= m < k && next[m].symbol@ == next[j as int].symbol@,
            decreases j - k,
        {
            assert(next[k as int] == symbols@[k as int]);
            if symbols[k].symbol == *symbol {
                seen = true;
            }
            k = k + 1;
        }
        assert(seen == listed_before(next, j as int));
        if !seen {
            let price = symbol_average(symbol, replies, total);
            result.push(PriceInfo { symbol: symbol.clone(), price, change: None });
        }
        j = j + 1;
    }
    assert(symbols@.subrange(0, symbols@.len() as int) =~= symbols@);
    let r = Ok(result);
    assert(prices_model(result@) =~= aggregate(symbols@, replies@)->Ok_0);
    r
}

/// The weighted average of `symbol` over the replies, rounded down.
fn symbol_average(symbol: &String, replies: &Vec<ProviderReply>, total: u64) -> (r: u64)
    requires
        total == total_weight(replies@) > 0,
    ensures
        r == average_of(replies@, symbol@),
{
    let n = replies.len();
    let ghost tw = total_weight(replies@);
    let mut acc: u128 = 0;
    let mut i: usize = 0;
    while i < n
        invariant
            n == replies@.len(),
            i <= n,
            tw == total_weight(replies@),
            tw == total <= u64::MAX,
            acc == weighted_sum(replies@.subrange(0, i as int), symbol@),
        decreases n - i,
    {
        let reply = &replies[i];
        let ghost next = replies@.subrange(0, i + 1);
        assert(next.drop_last() =~= replies@.subrange(0, i as int));
        proof {
            lemma_weighted_sum_bound(next, symbol@);
            lemma_total_weight_prefix(replies@, i + 1);
            assert((u64::MAX as int) * total_weight(next) <= (u64::MAX as int) * (
            u64::MAX as int)) by (nonlinear_arith)
                requires
                    total_weight(next) <= u64::MAX,
            ;
        }
        if let Ok(quotes) = &reply.quotes {
            if let Some(p) = find_quote(quotes, symbol) {
                acc = acc + p as u128 * reply.weight as u128;
            }
        }
        i = i + 1;
    }
    assert(replies@.subrange(0, n as int) =~= replies@);
    proof {
        lemma_weighted_sum_bound(replies@, symbol@);
        lemma_div_is_ordered(acc as int, (u64::MAX as int) * tw, tw);
        lemma_div_by_multiple(u64::MAX as int, tw);
    }
    (acc / total as u128) as u64
}

/// Cache state: the last published snapshot, and whether it may be served.
pub type CacheModel = (PricesModel, bool);

/// The cache state after one refresh cycle with the given outcome: a success
/// replaces the snapshot whole and makes it servable; a failure keeps the
/// snapshot and makes it unservable.
pub open spec fn next_state(state: CacheModel, outcome: Result<PricesModel, AggregationError>) -> CacheModel {
    match outcome {
        Ok(prices) => (prices, true),
        Err(_) => (state.0, false),
    }
}

/// The refresh engine's state: the configuration it aggregates for, and the
/// snapshot cache that readers see.
pub struct Service {
    config: Config,
    is_servable: bool,
    current_prices: Vec<PriceInfo>,
}

impl View for Service {
    type V = CacheModel;

    closed spec fn view(&self) -> CacheModel {
        (prices_model(self.current_prices@), self.is_servable)
    }
}

impl Service {
    /// The configuration the service aggregates for.
    pub closed spec fn spec_config(&self) -> Config {
        self.config
    }

    /// The cache holds either nothing or one full snapshot, and no published
    /// price carries a change.
    pub closed spec fn wf(&self) -> bool {
        &&& no_change(self.current_prices@)
        &&& (self.current_prices@.len() == 0 || key_set(self@.0) == universe(self.config.symbols@))
        &&& keys_distinct(self@.0)
    }

    /// A service that has published nothing yet and is not servable.
    pub fn new(config: Config) -> (r: Service)
        ensures
            r.wf(),
            r@ == (Seq::<(Seq<char>, int)>::empty(), false),
            r.spec_config() == config,
    {
        let r = Service { config, is_servable: false, current_prices: Vec::new() };
        assert(r@.0 =~= Seq::<(Seq<char>, int)>::empty());
        r
    }

    /// The configuration the service aggregates for.
    pub fn config(&self) -> (r: &Config)
        ensures
            *r == self.spec_config(),
    {
        &self.config
    }

    /// Whether the last refresh cycle succeeded.
    pub fn is_servable(&self) -> (r: bool)
        ensures
            r == self@.1,
    {
        self.is_servable
    }

    /// A copy of the current snapshot.
    pub fn get_prices(&self) -> (r: Vec<PriceInfo>)
        requires
            self.wf(),
        ensures
            prices_model(r@) == self@.0,
            no_change(r@),
    {
        let mut r: Vec<PriceInfo> = Vec::new();
        let mut i: usize = 0;
        while i < self.current_prices.len()
            invariant
                i <= self.current_prices@.len(),
                r@.len() == i,
                no_change(self.current_prices@),
                forall|k: int|
                    0 <= k < i ==> {
                        &&& (#[trigger] r@[k]).symbol@ == self.current_prices@[k].symbol@
                        &&& r@[k].price == self.current_prices@[k].price
                        &&& r@[k].change is None
                    },
            decreases self.current_prices@.len() - i,
        {
            let p = &self.current_prices[i];
            r.push(PriceInfo { symbol: p.symbol.clone(), price: p.price, change: None });
            i = i + 1;
        }
        assert(prices_model(r@) =~= prices_model(self.current_prices@));
        r
    }

    /// One aggregation pass over the configured symbols; see `aggregate_prices`.
    pub fn avg_prices(&self, replies: &Vec<ProviderReply>) -> (r: Result<Vec<PriceInfo>, AggregationError>)
        requires
            replies@.len() <= u32::MAX,
        ensures
            outcome_model(r) == aggregate(self.spec_config().symbols@, replies@),
            r is Ok ==> no_change(r->Ok_0@),
    {
        aggregate_prices(&self.config.symbols, replies)
    }

    /// One refresh cycle, given what every provider's fetch gave: on success
    /// the snapshot is replaced whole and the cache becomes servable; on
    /// failure the snapshot stays and the cache becomes unservable. Returns
    /// the cycle's error, if any.
    pub fn refresh(&mut self, replies: &Vec<ProviderReply>) -> (r: Result<(), AggregationError>)
        requires
            old(self).wf(),
            replies@.len() <= u32::MAX,
        ensures
            final(self).wf(),
            final(self).spec_config() == old(self).spec_config(),
            final(self)@.0.len() == 0 || key_set(final(self)@.0) == universe(
                final(self).spec_config().symbols@,
            ),
            keys_distinct(final(self)@.0),
            final(self)@ == next_state(old(self)@, aggregate(old(self).spec_config().symbols@, replies@)),
            r is Ok <==> aggregate(old(self).spec_config().symbols@, replies@) is Ok,
            r is Err ==> aggregate(old(self).spec_config().symbols@, replies@) == Err::<
                PricesModel,
                AggregationError,
            >(r->Err_0),
    {
        match self.avg_prices(replies) {
            Ok(prices) => {
                proof {
                    lemma_aggregate_covers_universe(self.config.symbols@, replies@);
                }
                self.current_prices = prices;
                self.is_servable = true;
                Ok(())
            },
            Err(e) => {
                self.is_servable = false;
                Err(e)
            },
        }
    }
}

proof fn lemma_distinct_symbols(symbols: Seq<SymbolInfo>)
    ensures
        forall|x: Seq<char>| distinct_symbols(symbols).contains(x) <==> universe(symbols).contains(x),
        distinct_symbols(symbols).no_duplicates(),
    decreases symbols.len(),
{
    if symbols.len() > 0 {
        let t = symbols.drop_last();
        let n = symbols.len() - 1;
        let last = symbols.last().symbol@;
        let rest = distinct_symbols(t);
        lemma_distinct_symbols(t);
        assert forall|x: Seq<char>| universe(symbols).contains(x) <==> (universe(t).contains(x) || x == last) by {
            if universe(symbols).contains(x) {
                let i = choose|i: int| 0 <= i < symbols.len() && symbols[i].symbol@ == x;
                if i < n {
                    assert(t[i] == symbols[i]);
                }
            }
            if universe(t).contains(x) {
                let i = choose|i: int| 0 <= i < t.len() && t[i].symbol@ == x;
                assert(t[i] == symbols[i]);
            }
        }
        if listed_before(symbols, n) {
            let k = choose|k: int| 0 <= k < n && symbols[k].symbol@ == symbols[n].symbol@;
            assert(t[k] == symbols[k]);
            assert(universe(t).contains(last));
        } else {
            assert(!universe(t).contains(last)) by {
                if universe(t).contains(last) {
                    let i = choose|i: int| 0 <= i < t.len() && t[i].symbol@ == last;
                    assert(t[i] == symbols[i]);
                }
            }
            let d = rest.push(last);
            assert forall|x: Seq<char>| d.contains(x) <==> (rest.contains(x) || x == last) by {
                if d.contains(x) {
                    let i = choose|i: int| 0 <= i < d.len() && d[i] == x;
                    if i < rest.len() {
                        assert(rest[i] == x);
                    }
                }
                if rest.contains(x) {
                    let i = choose|i: int| 0 <= i < rest.len() && rest[i] == x;
                    assert(d[i] == x);
                }
                if x == last {
                    assert(d[rest.len() as int] == x);
                }
            }
            assert forall|i: int, j: int| 0 <= i < d.len() && 0 <= j < d.len() && i != j implies d[i] != d[j] by {
                if i < rest.len() && j < rest.len() {
                } else if i < rest.len() {
                    assert(rest.contains(d[i]));
                } else {
                    assert(rest.contains(d[j]));
                }
            }
        }
    }
}

/// A successful aggregation pass covers exactly the configured symbol
/// universe, no more and no fewer symbols, each once.
pub proof fn lemma_aggregate_covers_universe(symbols: Seq<SymbolInfo>, replies: Seq<ProviderReply>)
    ensures
        aggregate(symbols, replies) is Ok ==> key_set(aggregate(symbols, replies)->Ok_0) == universe(symbols),
        aggregate(symbols, replies) is Ok ==> keys_distinct(aggregate(symbols, replies)->Ok_0),
{
    if let Ok(prices) = aggregate(symbols, replies) {
        let d = distinct_symbols(symbols);
        lemma_distinct_symbols(symbols);
        assert forall|k: Seq<char>| key_set(prices).contains(k) <==> universe(symbols).contains(k) by {
            if key_set(prices).contains(k) {
                let i = choose|i: int| 0 <= i < prices.len() && prices[i].0 == k;
                assert(d[i] == k);
                assert(d.contains(k));
            }
            if universe(symbols).contains(k) {
                assert(d.contains(k));
                let i = choose|i: int| 0 <= i < d.len() && d[i] == k;
                assert(prices[i].0 == k);
            }
        }
        assert(key_set(prices) =~= universe(symbols));
    }
}

proof fn lemma_no_success(replies: Seq<ProviderReply>)
    requires
        forall|i: int| 0 <= i < replies.len() ==> #[trigger] replies[i].quotes is Err,
    ensures
        ok_count(replies) == 0,
    decreases replies.len(),
{
    if replies.len() > 0 {
        assert forall|i: int| 0 <= i < replies.drop_last().len() implies #[trigger] replies.drop_last()[i].quotes is Err by {
            assert(replies.drop_last()[i] == replies[i]);
        }
        lemma_no_success(replies.drop_last());
        assert(replies[replies.len() - 1].quotes is Err);
    }
}

/// Whatever the providers reply, a refresh cycle leaves the cache either
/// empty (no cycle has succeeded yet) or holding exactly the configured
/// symbol universe; after a successful cycle it holds exactly that universe.
pub proof fn lemma_cycle_keeps_universe(
    state: CacheModel,
    symbols: Seq<SymbolInfo>,
    replies: Seq<ProviderReply>,
)
    requires
        state.0.len() == 0 || key_set(state.0) == universe(symbols),
    ensures
        ({
            let next = next_state(state, aggregate(symbols, replies));
            &&& next.0.len() == 0 || key_set(next.0) == universe(symbols)
            &&& aggregate(symbols, replies) is Ok ==> key_set(next.0) == universe(symbols)
        }),
{
    lemma_aggregate_covers_universe(symbols, replies);
}

/// When every provider fails, the cycle makes the cache unservable and leaves
/// its snapshot as it was.
pub proof fn lemma_all_failed_keeps_snapshot(
    state: CacheModel,
    symbols: Seq<SymbolInfo>,
    replies: Seq<ProviderReply>,
)
    requires
        forall|i: int| 0 <= i < replies.len() ==> #[trigger] replies[i].quotes is Err,
    ensures
        aggregate(symbols, replies) == Err::<PricesModel, AggregationError>(
            AggregationError::NoProvider,
        ),
        next_state(state, aggregate(symbols, replies)) == (state.0, false),
{
    lemma_no_success(replies);
}

proof fn lemma_remove_reply(replies: Seq<ProviderReply>, i: int, symbol: Seq<char>)
    requires
        0 <= i < replies.len(),
    ensures
        weighted_sum(replies, symbol) == weighted_sum(replies.remove(i), symbol) + contribution(
            replies[i],
            symbol,
        ),
        total_weight(replies) == total_weight(replies.remove(i)) + reply_weight(replies[i]),
        ok_count(replies) == ok_count(replies.remove(i)) + if replies[i].quotes is Ok {
            1nat
        } else {
            0nat
        },
    decreases replies.len(),
{
    if i == replies.len() - 1 {
        assert(replies.remove(i) =~= replies.drop_last());
    } else {
        lemma_remove_reply(replies.drop_last(), i, symbol);
        assert(replies.drop_last().remove(i) =~= replies.remove(i).drop_last());
        assert(replies.remove(i).last() == replies.last());
        assert(replies.drop_last()[i] == replies[i]);
    }
}

/// A failed provider, wherever it stands in the list and whatever its weight,
/// changes nothing in the outcome of an aggregation pass.
pub proof fn lemma_failed_provider_changes_nothing(
    symbols: Seq<SymbolInfo>,
    replies: Seq<ProviderReply>,
    i: int,
)
    requires
        0 <= i < replies.len(),
        replies[i].quotes is Err,
    ensures
        aggregate(symbols, replies) == aggregate(symbols, replies.remove(i)),
{
    assert forall|y: Seq<char>| weighted_sum(replies, y) == weighted_sum(replies.remove(i), y) by {
        lemma_remove_reply(replies, i, y);
    }
    lemma_remove_reply(replies, i, Seq::empty());
    if aggregate(symbols, replies) is Ok {
        assert(aggregate(symbols, replies)->Ok_0 =~= aggregate(symbols, replies.remove(i))->Ok_0);
    }
}

/// A succeeding provider that did not quote `symbol`, wherever it stands in the
/// list, adds nothing to that symbol's numerator, while its weight still
/// counts in the denominator.
pub proof fn lemma_missing_quote_counts_in_denominator(
    replies: Seq<ProviderReply>,
    i: int,
    symbol: Seq<char>,
)
    requires
        0 <= i < replies.len(),
        replies[i].quotes matches Ok(q) && quote_price(q@, symbol) is None,
    ensures
        weighted_sum(replies, symbol) == weighted_sum(replies.remove(i), symbol),
        total_weight(replies) == total_weight(replies.remove(i)) + replies[i].weight,
        average_of(replies, symbol) == weighted_sum(replies.remove(i), symbol) / (total_weight(
            replies.remove(i),
        ) + replies[i].weight),
{
    lemma_remove_reply(replies, i, symbol);
}

/// A cycle publishes all or nothing: after it the snapshot is either the one
/// before it or the new aggregation result, whole.
pub proof fn lemma_publish_is_whole(state: CacheModel, outcome: Result<PricesModel, AggregationError>)
    ensures
        next_state(state, outcome).0 == state.0 || outcome == Ok::<PricesModel, AggregationError>(
            next_state(state, outcome).0,
        ),
{
}

/// Successful cycles over the same provider replies publish the same
/// snapshot, whatever came before, and repeating such a cycle changes nothing.
pub proof fn lemma_stable_replies_same_snapshot(
    first: CacheModel,
    second: CacheModel,
    symbols: Seq<SymbolInfo>,
    replies: Seq<ProviderReply>,
)
    requires
        aggregate(symbols, replies) is Ok,
    ensures
        next_state(first, aggregate(symbols, replies)) == next_state(second, aggregate(symbols, replies)),
        next_state(next_state(first, aggregate(symbols, replies)), aggregate(symbols, replies))
            == next_state(first, aggregate(symbols, replies)),
{
}

} // verus!
