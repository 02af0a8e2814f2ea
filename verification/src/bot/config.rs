//! The demo bot's settings and what is derived from them.
use vstd::prelude::*;
use crate::external::{duration_from_millis, spec_duration_from_millis, split_on, split_string};
use crate::queries::answer_query::{normalize_symbol, normalized_symbol};

verus! {

/// Settings of the demo liquidity and trade bot.
#[derive(Debug)]
pub struct BotConfig {
    /// Base URL of the exchange API.
    pub api_url: String,
    /// Comma-separated market symbols.
    pub markets: String,
    /// Target resting orders per market, split between bids and asks.
    pub orders: u32,
    /// Crossing trades per market per cycle.
    pub trades: u32,
    /// Most create or cancel calls per second.
    pub rate: u32,
    /// Most book changes (cancels and creates) per market per cycle.
    pub max_actions: u32,
    /// Largest move of the mid price per cycle, in ticks.
    pub walk_ticks: u32,
    /// Distance from the mid to the first level, in ticks.
    pub spread_ticks: u32,
    /// Pause between cycles, in milliseconds.
    pub cycle_ms: u64,
    /// Credit the bot accounts again every this many cycles (0: only at start).
    pub recredit_every: u32,
    pub maker_email: String,
    pub maker_password: String,
    pub taker_email: String,
    pub taker_password: String,
}

/// The market list a setting names: its comma-separated pieces, trimmed and
/// upper-cased, empty ones left out.
pub open spec fn spec_market_list(markets: Seq<char>) -> Seq<Seq<char>> {
    split_on(markets, ',').map_values(|p: Seq<char>| normalized_symbol(p)).filter(|m: Seq<char>| m.len() > 0)
}

/// The pause between two calls for a rate of calls per second: a thousand
/// milliseconds divided by the rate (at least 1), and never below 1 ms.
pub open spec fn spec_delay_millis(rate: u32) -> u64 {
    let r: int = if rate > 1 { rate as int } else { 1 };
    let ms: int = 1000int / r;
    if ms > 1 { ms as u64 } else { 1 }
}

/// The pause between two calls, in milliseconds, for a rate of calls per
/// second.
pub fn delay_millis(rate: u32) -> (ms: u64)
    ensures
        ms == spec_delay_millis(rate),
{
    let r: u64 = if rate > 1 { rate as u64 } else { 1 };
    let ms: u64 = 1000 / r;
    if ms > 1 { ms } else { 1 }
}

impl BotConfig {
    /// The configured markets, trimmed, upper-cased, empty entries dropped.
    pub fn market_list(&self) -> (r: Vec<String>)
        ensures
            r@.map_values(|m: String| m@) == spec_market_list(self.markets@),
    {
        let pieces = split_string(self.markets.as_str(), ',');
        let ghost ps = pieces@.map_values(|p: String| p@);
        let ghost normed = ps.map_values(|p: Seq<char>| normalized_symbol(p));
        let mut out: Vec<String> = Vec::new();
        let mut i: usize = 0;
        proof {
            reveal_with_fuel(Seq::<_>::filter, 1);
            assert(out@.map_values(|m: String| m@) =~= normed.take(0).filter(|m: Seq<char>| m.len() > 0));
        }
        while i < pieces.len()
            invariant
                i <= pieces.len(),
                ps == pieces@.map_values(|p: String| p@),
                normed == ps.map_values(|p: Seq<char>| normalized_symbol(p)),
                out@.map_values(|m: String| m@) == normed.take(i as int).filter(|m: Seq<char>| m.len() > 0),
            decreases pieces.len() - i,
        {
            let m = normalize_symbol(pieces[i].as_str());
            let ghost prev = out@.map_values(|x: String| x@);
            proof {
                reveal_with_fuel(Seq::<_>::filter, 1);
                assert(normed.take(i + 1).drop_last() =~= normed.take(i as int));
                assert(normed.take(i + 1).last() == m@);
            }
            if !m.as_str().is_empty() {
                out.push(m);
                assert(out@.map_values(|x: String| x@) =~= prev.push(normed[i as int]));
            }
            i += 1;
        }
        assert(normed.take(pieces.len() as int) =~= normed);
        assert(normed =~= split_on(self.markets@, ',').map_values(|p: Seq<char>| normalized_symbol(p)));
        out
    }

    /// The pause between two create or cancel calls.
    pub fn request_delay(&self) -> (d: std::time::Duration)
        ensures
            d == spec_duration_from_millis(spec_delay_millis(self.rate)),
    {
        duration_from_millis(delay_millis(self.rate))
    }
}

} // verus!
