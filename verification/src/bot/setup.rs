//! Choosing the bot's markets at start-up from those the exchange lists.
use vstd::prelude::*;
use crate::bot::config::{spec_market_list, BotConfig};
use crate::bot::engine::{align_price, default_mid, spec_align_price, spec_default_mid, MarketRuntime};
use crate::external::{ascii_case_eq, eq_ignore_ascii_case, spec_to_uppercase, split_on, split_string, to_uppercase_string};
use crate::memory::{assets_view, first_index, lemma_first_index_found, lemma_first_index_none, markets_view};
use crate::queries::answer_query::{normalize_symbol, normalized_symbol};
use crate::types::{Asset, AssetModel, Market, MarketModel, MarketStatus};

verus! {

/// Why the bot cannot start on its markets.
#[derive(Clone, Copy, PartialEq, Eq, Structural, Debug)]
pub enum BootstrapError {
    /// A configured market is not listed.
    MarketNotFound,
    /// A configured market is listed but not trading.
    MarketNotTrading,
    /// No asset gives the decimals of a market's base asset.
    MissingDecimals,
    /// No market is configured.
    NoMarkets,
}

/// The bot's state for one market, as a model.
pub struct RuntimeModel {
    pub market: MarketModel,
    pub base_decimals: i32,
    pub mid: i64,
    pub seeded: bool,
}

impl View for MarketRuntime {
    type V = RuntimeModel;

    open spec fn view(&self) -> RuntimeModel {
        RuntimeModel { market: self.market@, base_decimals: self.base_decimals, mid: self.mid, seeded: self.seeded }
    }
}

pub open spec fn runtimes_view(v: Seq<MarketRuntime>) -> Seq<RuntimeModel> {
    v.map_values(|r: MarketRuntime| r@)
}

/// The listed market a configured name picks: the first whose symbol
/// matches ignoring ASCII case.
pub open spec fn market_match(ms: Seq<MarketModel>, wanted: Seq<char>) -> Option<int> {
    first_index(ms, |m: MarketModel| ascii_case_eq(m.symbol, wanted))
}

/// A market's base asset symbol: the part before the first `_`, upper-cased.
pub open spec fn base_symbol(market_symbol: Seq<char>) -> Seq<char> {
    spec_to_uppercase(split_on(market_symbol, '_')[0])
}

/// The decimals of the last asset whose trimmed, upper-cased symbol is
/// `symbol` (later assets win, as when collected into a map).
pub open spec fn decimals_of(assets: Seq<AssetModel>, symbol: Seq<char>) -> Option<i32>
    decreases assets.len(),
{
    if assets.len() == 0 {
        None
    } else if normalized_symbol(assets.last().symbol) == symbol {
        Some(assets.last().decimals)
    } else {
        decimals_of(assets.drop_last(), symbol)
    }
}

/// Setting the bot up on the configured market `wanted`.
pub open spec fn spec_resolve(ms: Seq<MarketModel>, assets: Seq<AssetModel>, wanted: Seq<char>) -> Result<RuntimeModel, BootstrapError> {
    match market_match(ms, wanted) {
        None => Err(BootstrapError::MarketNotFound),
        Some(i) => {
            let m = ms[i];
            if m.status != MarketStatus::Trading {
                Err(BootstrapError::MarketNotTrading)
            } else {
                match decimals_of(assets, base_symbol(m.symbol)) {
                    None => Err(BootstrapError::MissingDecimals),
                    Some(d) => Ok(RuntimeModel {
                        market: m,
                        base_decimals: d,
                        mid: spec_align_price(spec_default_mid(m.symbol), m.price_tick_size),
                        seeded: false,
                    }),
                }
            }
        },
    }
}

pub proof fn lemma_split_nonempty(s: Seq<char>, sep: char)
    ensures
        split_on(s, sep).len() >= 1,
    decreases s.len(),
{
    if s.len() > 0 {
        lemma_split_nonempty(s.drop_last(), sep);
    }
}

/// Position of the first listed market matching `wanted` ignoring ASCII case.
fn find_market_ci(markets: &Vec<Market>, wanted: &String) -> (r: Option<usize>)
    ensures
        match r {
            Some(i) => market_match(markets_view(markets@), wanted@) == Some(i as int),
            None => market_match(markets_view(markets@), wanted@) is None,
        },
{
    let ghost ms = markets_view(markets@);
    let ghost p = |m: MarketModel| ascii_case_eq(m.symbol, wanted@);
    let mut i: usize = 0;
    while i < markets.len()
        invariant
            i <= markets.len(),
            ms == markets_view(markets@),
            p == (|m: MarketModel| ascii_case_eq(m.symbol, wanted@)),
            forall|j: int| 0 <= j < i ==> !p(#[trigger] ms[j]),
        decreases markets.len() - i,
    {
        assert(ms[i as int] == markets@[i as int]@);
        if eq_ignore_ascii_case(markets[i].symbol.as_str(), wanted.as_str()) {
            proof {
                lemma_first_index_found(ms, p, i as int);
            }
            return Some(i);
        }
        i += 1;
    }
    proof {
        lemma_first_index_none(ms, p);
    }
    None
}

/// The decimals of the last asset whose normalized symbol is `symbol`.
fn find_decimals(assets: &Vec<Asset>, symbol: &String) -> (r: Option<i32>)
    ensures
        r == decimals_of(assets_view(assets@), symbol@),
{
    let ghost av = assets_view(assets@);
    let mut k: usize = assets.len();
    assert(av.take(assets.len() as int) =~= av);
    while k > 0
        invariant
            k <= assets.len(),
            av == assets_view(assets@),
            decimals_of(av, symbol@) == decimals_of(av.take(k as int), symbol@),
        decreases k,
    {
        let ghost t = av.take(k as int);
        assert(t.drop_last() =~= av.take(k - 1));
        assert(t.last() == assets@[k - 1]@);
        let sym = normalize_symbol(assets[k - 1].symbol.as_str());
        if sym == *symbol {
            return Some(assets[k - 1].decimals);
        }
        k -= 1;
    }
    assert(av.take(0) =~= Seq::<AssetModel>::empty());
    None
}

/// Sets the bot up on one configured market.
pub fn resolve_market(markets: &Vec<Market>, assets: &Vec<Asset>, wanted: &String) -> (r: Result<MarketRuntime, BootstrapError>)
    ensures
        match r {
            Ok(rt) => spec_resolve(markets_view(markets@), assets_view(assets@), wanted@) == Ok::<RuntimeModel, BootstrapError>(rt@),
            Err(e) => spec_resolve(markets_view(markets@), assets_view(assets@), wanted@) == Err::<RuntimeModel, BootstrapError>(e),
        },
{
    let ghost ms = markets_view(markets@);
    let mi = match find_market_ci(markets, wanted) {
        None => return Err(BootstrapError::MarketNotFound),
        Some(k) => k,
    };
    let market = markets[mi].duplicate();
    assert(market@ == ms[mi as int]);
    match market.status {
        MarketStatus::Trading => {},
        _ => return Err(BootstrapError::MarketNotTrading),
    }
    let pieces = split_string(market.symbol.as_str(), '_');
    proof {
        lemma_split_nonempty(market.symbol@, '_');
        assert(pieces@.map_values(|x: String| x@)[0] == pieces@[0]@);
    }
    let base = to_uppercase_string(pieces[0].as_str());
    assert(base@ == base_symbol(market.symbol@));
    let d = match find_decimals(assets, &base) {
        Some(d) => d,
        None => return Err(BootstrapError::MissingDecimals),
    };
    let tick = market.price_tick_size;
    let mid = align_price(default_mid(market.symbol.as_str()), tick);
    Ok(MarketRuntime { market, base_decimals: d, mid, seeded: false })
}

/// Setting the bot up on each configured market in turn; the first failure
/// stops it, and an empty list is refused.
pub open spec fn spec_resolve_all(ms: Seq<MarketModel>, assets: Seq<AssetModel>, wanted: Seq<Seq<char>>) -> Result<Seq<RuntimeModel>, BootstrapError> {
    if wanted.len() == 0 {
        Err(BootstrapError::NoMarkets)
    } else {
        resolve_each(ms, assets, wanted)
    }
}

pub open spec fn resolve_each(ms: Seq<MarketModel>, assets: Seq<AssetModel>, wanted: Seq<Seq<char>>) -> Result<Seq<RuntimeModel>, BootstrapError>
    decreases wanted.len(),
{
    if wanted.len() == 0 {
        Ok(Seq::empty())
    } else {
        match resolve_each(ms, assets, wanted.drop_last()) {
            Err(e) => Err(e),
            Ok(rs) => match spec_resolve(ms, assets, wanted.last()) {
                Err(e) => Err(e),
                Ok(r) => Ok(rs.push(r)),
            },
        }
    }
}

/// The bot's working state for each configured market, in order.
pub fn resolve_markets(config: &BotConfig, markets: &Vec<Market>, assets: &Vec<Asset>) -> (r: Result<Vec<MarketRuntime>, BootstrapError>)
    ensures
        match r {
            Ok(v) => spec_resolve_all(markets_view(markets@), assets_view(assets@), spec_market_list(config.markets@))
                == Ok::<Seq<RuntimeModel>, BootstrapError>(runtimes_view(v@)),
            Err(e) => spec_resolve_all(markets_view(markets@), assets_view(assets@), spec_market_list(config.markets@))
                == Err::<Seq<RuntimeModel>, BootstrapError>(e),
        },
{
    let wanted = config.market_list();
    let ghost wv = wanted@.map_values(|m: String| m@);
    let ghost ms = markets_view(markets@);
    let ghost av = assets_view(assets@);
    assert(wv == spec_market_list(config.markets@));
    let mut out: Vec<MarketRuntime> = Vec::new();
    let mut i: usize = 0;
    assert(wv.take(0) =~= Seq::<Seq<char>>::empty());
    assert(runtimes_view(out@) =~= Seq::<RuntimeModel>::empty());
    while i < wanted.len()
        invariant
            i <= wanted.len(),
            wv == wanted@.map_values(|m: String| m@),
            ms == markets_view(markets@),
            av == assets_view(assets@),
            wv == spec_market_list(config.markets@),
            out.len() == i,
            resolve_each(ms, av, wv.take(i as int)) == Ok::<Seq<RuntimeModel>, BootstrapError>(runtimes_view(out@)),
        decreases wanted.len() - i,
    {
        assert(wv.take(i + 1).drop_last() =~= wv.take(i as int));
        assert(wv.take(i + 1).last() == wanted@[i as int]@);
        match resolve_market(markets, assets, &wanted[i]) {
            Err(e) => {
                proof {
                    assert(resolve_each(ms, av, wv.take(i + 1)) == Err::<Seq<RuntimeModel>, BootstrapError>(e));
                    lemma_resolve_err_stays(ms, av, wv, i as int + 1);
                    assert(wv == spec_market_list(config.markets@));
                }
                return Err(e);
            },
            Ok(rt) => {
                let ghost prev = runtimes_view(out@);
                out.push(rt);
                assert(runtimes_view(out@) =~= prev.push(rt@));
            },
        }
        i += 1;
    }
    assert(wv.take(wanted.len() as int) =~= wv);
    assert(wv == spec_market_list(config.markets@));
    if out.len() == 0 {
        assert(runtimes_view(out@).len() == 0);
        return Err(BootstrapError::NoMarkets);
    }
    Ok(out)
}

/// Once a prefix of the list fails, the whole list fails the same way.
proof fn lemma_resolve_err_stays(ms: Seq<MarketModel>, av: Seq<AssetModel>, wv: Seq<Seq<char>>, k: int)
    requires
        1 <= k <= wv.len(),
        resolve_each(ms, av, wv.take(k)) is Err,
    ensures
        spec_resolve_all(ms, av, wv) == resolve_each(ms, av, wv.take(k)),
    decreases wv.len() - k,
{
    if k < wv.len() {
        assert(wv.take(k + 1).drop_last() =~= wv.take(k));
        lemma_resolve_err_stays(ms, av, wv, k + 1);
    } else {
        assert(wv.take(k) =~= wv);
    }
}

} // verus!
