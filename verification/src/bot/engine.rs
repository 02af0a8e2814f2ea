//! Prices, ladders, sizes and moves of the demo bot's market making.
use vstd::prelude::*;
use crate::bot::config::BotConfig;
use crate::external::{random_in, random_ratio};
use crate::helper::quote_notional::{div_toward_zero, lemma_pow10_positive, pow10};
use crate::types::{Market, MarketModel, OrderType};

verus! {

/// The side of the book a bot order rests on.
#[derive(Clone, Copy, PartialEq, Eq, Structural, Debug)]
pub enum Side {
    Bid,
    Ask,
}

pub open spec fn spec_order_type(s: Side) -> OrderType {
    match s {
        Side::Bid => OrderType::Buy,
        Side::Ask => OrderType::Sell,
    }
}

impl Side {
    /// Bids are buys, asks are sells.
    pub fn order_type(self) -> (t: OrderType)
        ensures
            t == spec_order_type(self),
    {
        match self {
            Side::Bid => OrderType::Buy,
            Side::Ask => OrderType::Sell,
        }
    }
}

/// A price level of the bot's target ladder.
#[derive(Clone, Copy, PartialEq, Eq, Structural, Debug)]
pub struct LevelKey {
    pub side: Side,
    pub price: i64,
}

/// The bot's working state for one market.
#[derive(Debug)]
pub struct MarketRuntime {
    pub market: Market,
    pub base_decimals: i32,
    pub mid: i64,
    pub seeded: bool,
}

/// `v` clamped to the `i64` range.
pub open spec fn sat(v: int) -> i64 {
    if v > i64::MAX {
        i64::MAX
    } else if v < i64::MIN {
        i64::MIN
    } else {
        v as i64
    }
}

pub open spec fn max_int(a: int, b: int) -> int {
    if a >= b { a } else { b }
}

pub open spec fn min_int(a: int, b: int) -> int {
    if a <= b { a } else { b }
}

/// The number of resting orders the bot aims for per market (at least 2).
pub fn targets_len(config: &BotConfig) -> (n: usize)
    ensures
        n == max_int(config.orders as int, 2),
{
    if config.orders > 2 { config.orders as usize } else { 2 }
}

/// How far a price is from the mid.
pub fn distance_from_mid(price: i64, mid: i64) -> (d: i64)
    requires
        i64::MIN < price - mid <= i64::MAX,
    ensures
        d == if price >= mid { price - mid } else { mid - price },
{
    let diff = price - mid;
    if diff < 0 { -diff } else { diff }
}

/// The starting mid price of a market, by its symbol.
pub open spec fn spec_default_mid(symbol: Seq<char>) -> i64 {
    if symbol == "BTC_USDC"@ {
        65_000_000_000
    } else if symbol == "ETH_USDC"@ {
        3_500_000_000
    } else if symbol == "SOL_USDC"@ {
        150_000_000
    } else {
        100_000_000
    }
}

/// The starting mid price of a market, by its symbol.
pub fn default_mid(symbol: &str) -> (m: i64)
    ensures
        m == spec_default_mid(symbol@),
{
    let s = symbol.to_owned();
    if s == "BTC_USDC".to_owned() {
        65_000_000_000
    } else if s == "ETH_USDC".to_owned() {
        3_500_000_000
    } else if s == "SOL_USDC".to_owned() {
        150_000_000
    } else {
        100_000_000
    }
}

/// A price rounded toward zero to a multiple of the tick; without a
/// positive tick, the price itself but at least 1.
pub open spec fn spec_align_price(price: i64, tick: i64) -> i64 {
    if tick <= 0 {
        if price >= 1 { price } else { 1 }
    } else {
        (div_toward_zero(price as int, tick as int) * tick) as i64
    }
}

proof fn lemma_align_bounds(price: int, tick: int)
    requires
        tick > 0,
    ensures
        price >= 0 ==> 0 <= div_toward_zero(price, tick) * tick <= price,
        price < 0 ==> price <= div_toward_zero(price, tick) * tick <= 0,
{
    if price >= 0 {
        assert(0 <= (price / tick) * tick <= price) by (nonlinear_arith)
            requires
                price >= 0,
                tick > 0,
        ;
    } else {
        let n = -price;
        assert(0 <= (n / tick) * tick <= n) by (nonlinear_arith)
            requires
                n > 0,
                tick > 0,
        ;
        assert(-((n / tick)) * tick == -((n / tick) * tick)) by (nonlinear_arith);
    }
}

/// A price rounded toward zero to a multiple of the tick.
pub fn align_price(price: i64, tick: i64) -> (p: i64)
    ensures
        p == spec_align_price(price, tick),
{
    if tick <= 0 {
        return if price >= 1 { price } else { 1 };
    }
    proof {
        lemma_align_bounds(price as int, tick as int);
    }
    if price >= 0 {
        let q = price / tick;
        assert(q * tick == div_toward_zero(price as int, tick as int) * tick);
        q * tick
    } else {
        let n: i128 = -(price as i128);
        let q: i128 = n / (tick as i128);
        assert(0 <= q * tick <= n) by (nonlinear_arith)
            requires
                n > 0,
                tick > 0,
                q == n / (tick as i128),
        ;
        let r: i128 = -(q * (tick as i128));
        assert(-q * tick == -(q * tick)) by (nonlinear_arith);
        assert(r == div_toward_zero(price as int, tick as int) * tick);
        r as i64
    }
}

/// `a * b` clamped to the `i64` range.
pub fn saturating_mul(a: i64, b: i64) -> (r: i64)
    ensures
        r == sat(a * b),
{
    match a.checked_mul(b) {
        Some(v) => v,
        None => {
            if (a < 0) == (b < 0) {
                assert(a * b >= 0) by (nonlinear_arith)
                    requires
                        (a < 0) == (b < 0),
                ;
                i64::MAX
            } else {
                assert(a * b <= 0) by (nonlinear_arith)
                    requires
                        (a < 0) != (b < 0),
                ;
                i64::MIN
            }
        },
    }
}

/// `a + b` clamped to the `i64` range.
pub fn saturating_add(a: i64, b: i64) -> (r: i64)
    ensures
        r == sat(a + b),
{
    match a.checked_add(b) {
        Some(v) => v,
        None => if a > 0 { i64::MAX } else { i64::MIN },
    }
}

/// Ten to the power `e`, clamped to the `i64` range.
pub fn saturating_pow10(e: u32) -> (r: i64)
    ensures
        r == sat(pow10(e as nat)),
{
    let mut p: i64 = 1;
    let mut k: u32 = 0;
    while k < e
        invariant
            k <= e,
            p == sat(pow10(k as nat)),
        decreases e - k,
    {
        proof {
            lemma_pow10_positive(k as nat);
            assert(pow10((k + 1) as nat) == 10 * pow10(k as nat));
        }
        if p < i64::MAX {
            p = match p.checked_mul(10) {
                Some(v) => v,
                None => i64::MAX,
            };
        }
        k += 1;
    }
    p
}

/// The quantity search of `order_qty`: from `qty`, add a step at a time,
/// at most `fuel` times, until the notional reaches the market minimum.
pub open spec fn qty_search(price: i64, qty: i64, step: i64, scale: i64, min_notional: i64, fuel: nat) -> i64
    decreases fuel,
{
    if fuel == 0 {
        qty
    } else if div_toward_zero(sat(price * qty) as int, max_int(scale as int, 1)) >= min_notional {
        qty
    } else {
        qty_search(price, sat(qty + step), step, scale, min_notional, (fuel - 1) as nat)
    }
}

/// The size of a bot order at `price`: the market minimum (at least one
/// step), rounded down to whole steps, grown step by step (at most ten
/// thousand times) until its notional reaches the market's minimum notional.
pub open spec fn spec_order_qty(m: MarketModel, price: i64, base_decimals: i32) -> i64 {
    let step: i64 = if m.quantity_step_size > 1 { m.quantity_step_size } else { 1 };
    let scale = sat(pow10(if base_decimals > 0 { base_decimals as nat } else { 0 }));
    let q0: i64 = if m.min_order_quantity > step { m.min_order_quantity } else { step };
    let q1: i64 = ((q0 / step) * step) as i64;
    let q2: i64 = if q1 == 0 { step } else { q1 };
    qty_search(price, q2, step, scale, m.min_order_notional, 10_000)
}

/// `v / d` rounded toward zero, for a positive divisor.
fn div_trunc(v: i64, d: i64) -> (q: i64)
    requires
        d > 0,
    ensures
        q == div_toward_zero(v as int, d as int),
{
    if v >= 0 {
        v / d
    } else {
        let n: i128 = -(v as i128);
        let q: i128 = n / (d as i128);
        assert(0 <= q <= n) by (nonlinear_arith)
            requires
                n > 0,
                d > 0,
                q == n / (d as i128),
        ;
        (-q) as i64
    }
}

/// The size of a bot order at `price` in market `market`.
pub fn order_qty(market: &Market, price: i64, base_decimals: i32) -> (q: i64)
    ensures
        q == spec_order_qty(market@, price, base_decimals),
{
    let step: i64 = if market.quantity_step_size > 1 { market.quantity_step_size } else { 1 };
    let e: u32 = if base_decimals > 0 { base_decimals as u32 } else { 0 };
    let scale = saturating_pow10(e);
    let q0: i64 = if market.min_order_quantity > step { market.min_order_quantity } else { step };
    assert(0 <= (q0 / step) * step <= q0) by (nonlinear_arith)
        requires
            q0 >= step,
            step >= 1,
    ;
    let mut qty: i64 = (q0 / step) * step;
    if qty == 0 {
        qty = step;
    }
    let ghost q2 = qty;
    let scale_div: i64 = if scale > 1 { scale } else { 1 };
    let ghost m = market@;
    let mut k: u32 = 0;
    while k < 10_000
        invariant
            k <= 10_000,
            m == market@,
            step == (if m.quantity_step_size > 1 { m.quantity_step_size } else { 1 }),
            scale_div == max_int(scale as int, 1),
            spec_order_qty(m, price, base_decimals)
                == qty_search(price, qty, step, scale, m.min_order_notional, (10_000 - k) as nat),
        decreases 10_000 - k,
    {
        let notional = div_trunc(saturating_mul(price, qty), scale_div);
        if notional >= market.min_order_notional {
            return qty;
        }
        qty = saturating_add(qty, step);
        k += 1;
    }
    qty
}

/// A random whole-step quantity near `qty_base`: `qty_base * mult`
/// (saturating) rounded toward zero to whole steps, at least one step.
pub open spec fn spec_jittered_qty(qty_base: i64, mult: i64, step_size: i64) -> i64 {
    let step: i64 = if step_size > 1 { step_size } else { 1 };
    let q = div_toward_zero(sat(qty_base * mult) as int, step as int) * step;
    if q > step { q as i64 } else { step }
}

/// `qty_base * mult` in whole steps of `step_size` (at least one step).
pub fn jittered_qty(qty_base: i64, mult: i64, step_size: i64) -> (q: i64)
    ensures
        q == spec_jittered_qty(qty_base, mult, step_size),
{
    let step: i64 = if step_size > 1 { step_size } else { 1 };
    let p = saturating_mul(qty_base, mult);
    let d = div_trunc(p, step);
    proof {
        lemma_align_bounds(p as int, step as int);
    }
    let q = d * step;
    if q > step { q } else { step }
}

/// The offset of the `i`-th ladder level from the mid: `spread + i - 1`
/// ticks.
pub open spec fn ladder_offset(spread: int, tick: int, i: int) -> int {
    (spread + i - 1) * tick
}

/// The levels of the `i`-th rung: a bid below the mid (at or above one
/// tick) and an ask above it, each only when it lands on its side.
pub open spec fn ladder_rung(mid: i64, spread: int, tick: i64, i: int) -> Seq<LevelKey> {
    let off = ladder_offset(spread, tick as int, i);
    let bid = spec_align_price((mid - off) as i64, tick);
    let ask = spec_align_price((mid + off) as i64, tick);
    let bids = if bid >= tick && bid < mid { seq![LevelKey { side: Side::Bid, price: bid }] } else { Seq::empty() };
    let asks = if ask > mid { seq![LevelKey { side: Side::Ask, price: ask }] } else { Seq::empty() };
    bids + asks
}

/// The first `n` rungs, nearest first.
pub open spec fn spec_ladder(mid: i64, spread: int, tick: i64, n: nat) -> Seq<LevelKey>
    decreases n,
{
    if n == 0 {
        Seq::empty()
    } else {
        spec_ladder(mid, spread, tick, (n - 1) as nat) + ladder_rung(mid, spread, tick, n as int)
    }
}

pub open spec fn abs(v: int) -> int {
    if v >= 0 { v } else { -v }
}

/// The number of rungs: half the target order count (at least one).
pub open spec fn ladder_rungs(config: BotConfig) -> int {
    max_int(config.orders as int, 2) / 2
}

/// The spread in ticks (at least one).
pub open spec fn spread_of(config: BotConfig) -> int {
    max_int(config.spread_ticks as int, 1)
}

/// The farthest rung stays within `i64`.
pub open spec fn ladder_fits(config: BotConfig, mid: i64, tick: i64) -> bool {
    abs(mid as int) + (spread_of(config) + ladder_rungs(config) - 1) * abs(tick as int) <= i64::MAX
}

/// The ladder the bot keeps around the mid.
pub open spec fn spec_target_ladder(config: BotConfig, mid: i64, tick: i64) -> Seq<LevelKey> {
    spec_ladder(mid, spread_of(config), tick, ladder_rungs(config) as nat)
}

/// The levels the bot aims to keep resting, nearest to the mid first.
pub fn target_ladder(config: &BotConfig, runtime: &MarketRuntime) -> (r: Vec<LevelKey>)
    requires
        ladder_fits(*config, runtime.mid, runtime.market.price_tick_size),
    ensures
        r@ == spec_target_ladder(*config, runtime.mid, runtime.market.price_tick_size),
{
    let orders: u32 = if config.orders > 2 { config.orders } else { 2 };
    let levels: i64 = (orders / 2) as i64;
    let spread: i64 = if config.spread_ticks > 1 { config.spread_ticks as i64 } else { 1 };
    let tick = runtime.market.price_tick_size;
    let mid = runtime.mid;
    let ghost big = (spread + levels - 1) * abs(tick as int);
    let mut out: Vec<LevelKey> = Vec::new();
    let mut i: i64 = 1;
    while i <= levels
        invariant
            1 <= i <= levels + 1,
            levels == ladder_rungs(*config),
            spread == spread_of(*config),
            levels >= 1,
            big == (spread + levels - 1) * abs(tick as int),
            abs(mid as int) + big <= i64::MAX,
            out@ == spec_ladder(mid, spread as int, tick, (i - 1) as nat),
        decreases levels + 1 - i,
    {
        assert(abs((spread + i - 1) * tick) <= big) by (nonlinear_arith)
            requires
                1 <= i <= levels,
                spread >= 1,
                big == (spread + levels - 1) * abs(tick as int),
        ;
        let off: i64 = (spread + i - 1) * tick;
        let bid = align_price(mid - off, tick);
        let ask = align_price(mid + off, tick);
        let ghost before = out@;
        if bid >= tick && bid < mid {
            out.push(LevelKey { side: Side::Bid, price: bid });
        }
        if ask > mid {
            out.push(LevelKey { side: Side::Ask, price: ask });
        }
        assert(out@ =~= before + ladder_rung(mid, spread as int, tick, i as int));
        i += 1;
    }
    out
}

/// One step of the mid's walk: `delta` ticks, kept at ten ticks or more,
/// then aligned to the tick.
pub open spec fn spec_walk_step(mid: i64, tick: i64, delta: i64) -> i64 {
    let next = mid + delta * tick;
    let floor = tick * 10;
    spec_align_price((if next >= floor { next } else { floor }) as i64, tick)
}

/// The mid can move `max_ticks` either way within `i64`.
pub open spec fn walk_fits(mid: i64, tick: i64, max_ticks: int) -> bool {
    &&& abs(mid as int) + max_ticks * abs(tick as int) <= i64::MAX
    &&& abs(tick as int) * 10 <= i64::MAX
}

/// The largest move of one step, in ticks (at least one).
pub open spec fn walk_span(walk_ticks: u32) -> int {
    max_int(walk_ticks as int, 1)
}

/// Moves the mid by `delta` ticks.
pub fn walk_mid_by(runtime: &mut MarketRuntime, delta: i64)
    requires
        walk_fits(old(runtime).mid, old(runtime).market.price_tick_size, abs(delta as int)),
    ensures
        final(runtime).mid == spec_walk_step(old(runtime).mid, old(runtime).market.price_tick_size, delta),
        final(runtime).market == old(runtime).market,
        final(runtime).base_decimals == old(runtime).base_decimals,
        final(runtime).seeded == old(runtime).seeded,
{
    let tick = runtime.market.price_tick_size;
    assert(abs(delta * tick) == abs(delta as int) * abs(tick as int)) by (nonlinear_arith);
    let next: i64 = runtime.mid + delta * tick;
    let floor: i64 = tick * 10;
    runtime.mid = align_price(if next >= floor { next } else { floor }, tick);
}

/// A random walk of the mid: usually -1, 0 or 1 tick; with a span above one
/// tick, three times in ten any move up to the span.
pub fn walk_mid(runtime: &mut MarketRuntime, walk_ticks: u32)
    requires
        walk_fits(old(runtime).mid, old(runtime).market.price_tick_size, walk_span(walk_ticks)),
    ensures
        exists|delta: i64| -walk_span(walk_ticks) <= delta <= walk_span(walk_ticks)
            && final(runtime).mid == spec_walk_step(old(runtime).mid, old(runtime).market.price_tick_size, delta),
        final(runtime).market == old(runtime).market,
        final(runtime).base_decimals == old(runtime).base_decimals,
        final(runtime).seeded == old(runtime).seeded,
{
    let max: i64 = if walk_ticks > 1 { walk_ticks as i64 } else { 1 };
    let delta = if max == 1 {
        random_in(-1, 1)
    } else if random_ratio(7, 10) {
        random_in(-1, 1)
    } else {
        random_in(-max, max)
    };
    assert(abs(delta as int) * abs(runtime.market.price_tick_size as int) <= max * abs(runtime.market.price_tick_size as int)) by (nonlinear_arith)
        requires
            -max <= delta <= max,
    ;
    walk_mid_by(runtime, delta);
}

/// A taker order that crosses the book: a buy `spread + depth` ticks above
/// the mid or a sell as far below, aligned to the tick; none when the price
/// would fall below one tick.
pub open spec fn spec_taker_quote(mid: i64, spread: int, depth: int, tick: i64, buy: bool) -> Option<(OrderType, i64)> {
    let off = (spread + depth) * tick;
    let price = if buy { spec_align_price((mid + off) as i64, tick) } else { spec_align_price((mid - off) as i64, tick) };
    if price < tick {
        None
    } else {
        Some((if buy { OrderType::Buy } else { OrderType::Sell }, price))
    }
}

/// The side and price of a crossing order.
pub fn taker_quote(mid: i64, spread: i64, depth: i64, tick: i64, buy: bool) -> (r: Option<(OrderType, i64)>)
    requires
        1 <= spread <= u32::MAX,
        0 <= depth <= 1,
        abs(mid as int) + (spread + depth) * abs(tick as int) <= i64::MAX,
    ensures
        r == spec_taker_quote(mid, spread as int, depth as int, tick, buy),
{
    assert(abs((spread + depth) * tick) == (spread + depth) * abs(tick as int)) by (nonlinear_arith)
        requires
            spread + depth >= 1,
    ;
    assert(i64::MIN <= (spread + depth) * tick <= i64::MAX);
    let off: i64 = (spread + depth) * tick;
    let price = if buy { align_price(mid + off, tick) } else { align_price(mid - off, tick) };
    if price < tick {
        None
    } else {
        Some((if buy { OrderType::Buy } else { OrderType::Sell }, price))
    }
}

/// The crossing order for the given random choices, with its quantity.
pub open spec fn spec_trade(mid: i64, spread: int, depth: int, tick: i64, buy: bool, qty_base: i64, mult: i64, step_size: i64) -> Option<(OrderType, i64, i64)> {
    match spec_taker_quote(mid, spread, depth, tick, buy) {
        Some((t, p)) => Some((t, p, spec_jittered_qty(qty_base, mult, step_size))),
        None => None,
    }
}

/// A random crossing trade: one level deeper one time in four, a buy one
/// time in two, one or two base quantities. Returns the side, price and
/// quantity, or none when the price would fall below one tick.
pub fn plan_trade(config: &BotConfig, runtime: &MarketRuntime, qty_base: i64) -> (r: Option<(OrderType, i64, i64)>)
    requires
        abs(runtime.mid as int) + (spread_of(*config) + 1) * abs(runtime.market.price_tick_size as int) <= i64::MAX,
    ensures
        exists|depth: int, buy: bool, mult: i64| 0 <= depth <= 1 && 1 <= mult <= 2
            && r == #[trigger] spec_trade(runtime.mid, spread_of(*config), depth, runtime.market.price_tick_size, buy, qty_base, mult, runtime.market.quantity_step_size),
{
    let spread: i64 = if config.spread_ticks > 1 { config.spread_ticks as i64 } else { 1 };
    let depth: i64 = if random_ratio(1, 4) { 1 } else { 0 };
    let buy = random_ratio(1, 2);
    assert((spread + depth) * abs(runtime.market.price_tick_size as int) <= (spread + 1) * abs(runtime.market.price_tick_size as int)) by (nonlinear_arith)
        requires
            0 <= depth <= 1,
    ;
    match taker_quote(runtime.mid, spread, depth, runtime.market.price_tick_size, buy) {
        None => {
            assert(spec_trade(runtime.mid, spread as int, depth as int, runtime.market.price_tick_size, buy, qty_base, 1, runtime.market.quantity_step_size) is None);
            None
        },
        Some((t, price)) => {
            let mult = random_in(1, 2);
            let qty = jittered_qty(qty_base, mult, runtime.market.quantity_step_size);
            assert(Some((t, price, qty)) == spec_trade(runtime.mid, spread as int, depth as int, runtime.market.price_tick_size, buy, qty_base, mult, runtime.market.quantity_step_size));
            Some((t, price, qty))
        },
    }
}

/// The choices of one cycle from its random draws: the mid walks when its
/// draw says so; the taker trades when trades are on and its draw says so.
pub open spec fn spec_cycle_choices(trades: u32, walk_draw: bool, trade_draw: bool) -> (bool, bool) {
    (walk_draw, trades > 0 && trade_draw)
}

/// The choices of one cycle, given the random draws.
pub fn choose_cycle(config: &BotConfig, walk_draw: bool, trade_draw: bool) -> (r: (bool, bool))
    ensures
        r == spec_cycle_choices(config.trades, walk_draw, trade_draw),
{
    (walk_draw, config.trades > 0 && trade_draw)
}

/// Random choices of one cycle for a market: whether the mid walks (13 times
/// in 20) and whether the taker trades (7 times in 10, when trades are on;
/// no draw is made for trading otherwise).
pub fn cycle_choices(config: &BotConfig) -> (r: (bool, bool))
    ensures
        config.trades == 0 ==> !r.1,
        exists|walk_draw: bool, trade_draw: bool| r == #[trigger] spec_cycle_choices(config.trades, walk_draw, trade_draw),
{
    let walk_draw = random_ratio(13, 20);
    let trade_draw = if config.trades > 0 { random_ratio(7, 10) } else { false };
    let r = choose_cycle(config, walk_draw, trade_draw);
    assert(r == spec_cycle_choices(config.trades, walk_draw, trade_draw));
    r
}

} // verus!
