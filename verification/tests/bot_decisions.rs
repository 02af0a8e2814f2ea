#![allow(dead_code)]
use order_engine::bot::config::{delay_millis, BotConfig};
use order_engine::bot::engine::{
    align_price, choose_cycle, default_mid, distance_from_mid, jittered_qty, order_qty, plan_trade, saturating_pow10, target_ladder,
    targets_len, taker_quote, walk_mid, walk_mid_by, LevelKey, MarketRuntime, Side,
};
use order_engine::bot::setup::{resolve_market, resolve_markets, BootstrapError};
use order_engine::bot::sync::plan_sync;
use order_engine::listing::{listing_assets, InsertMarketParams, ListingError};
use order_engine::types::{Asset, AssetStatus, Market, MarketStatus, OpenOrderView, OrderStatus, OrderType};
use std::time::Duration;

fn config() -> BotConfig {
    BotConfig {
        api_url: "http://localhost:3000".into(),
        markets: "SOL_USDC,BTC_USDC".into(),
        orders: 40,
        trades: 1,
        rate: 20,
        max_actions: 6,
        walk_ticks: 1,
        spread_ticks: 2,
        cycle_ms: 800,
        recredit_every: 40,
        maker_email: "demo-maker@cex.local".into(),
        maker_password: "DemoMaker1!pass".into(),
        taker_email: "demo-taker@cex.local".into(),
        taker_password: "DemoTaker1!pass".into(),
    }
}

fn market(symbol: &str, status: MarketStatus) -> Market {
    Market {
        id: 1,
        symbol: symbol.into(),
        name: symbol.into(),
        base_asset_id: 2,
        quote_asset_id: 3,
        status,
        price_tick_size: 10_000,
        quantity_step_size: 1_000_000,
        min_order_quantity: 10_000_000,
        min_order_notional: 5_000_000,
        created_at: 0,
    }
}

fn asset(symbol: &str, decimals: i32) -> Asset {
    Asset { id: 2, symbol: symbol.into(), name: symbol.into(), decimals, status: AssetStatus::Active, created_at: 0 }
}

fn runtime(mid: i64) -> MarketRuntime {
    MarketRuntime { market: market("SOL_USDC", MarketStatus::Trading), base_decimals: 9, mid, seeded: false }
}

fn open_order(id: u64, symbol: &str, t: OrderType, price: i64) -> OpenOrderView {
    OpenOrderView {
        id,
        market_symbol: symbol.into(),
        order_type: t,
        price,
        quantity: 1,
        filled_quantity: 0,
        status: OrderStatus::Active,
        created_at: 0,
    }
}

#[test]
fn market_list_splits_trims_upper_cases_and_drops_empty() {
    let mut c = config();
    c.markets = " sol_usdc, ,BTC_usdc,,eth_usdc ".into();
    assert_eq!(c.market_list(), vec!["SOL_USDC".to_string(), "BTC_USDC".to_string(), "ETH_USDC".to_string()]);
    c.markets = "".into();
    assert!(c.market_list().is_empty());
}

#[test]
fn request_delay_follows_rate() {
    let mut c = config();
    assert_eq!(c.request_delay(), Duration::from_millis(50));
    c.rate = 0;
    assert_eq!(c.request_delay(), Duration::from_millis(1000));
    c.rate = 5000;
    assert_eq!(c.request_delay(), Duration::from_millis(1));
    assert_eq!(delay_millis(3), 333);
}

#[test]
fn price_helpers() {
    assert_eq!(align_price(155_005, 10_000), 150_000);
    assert_eq!(align_price(-15, 10), -10);
    assert_eq!(align_price(-5, 0), 1);
    assert_eq!(align_price(7, -3), 7);
    assert_eq!(distance_from_mid(90, 100), 10);
    assert_eq!(distance_from_mid(110, 100), 10);
    assert_eq!(default_mid("BTC_USDC"), 65_000_000_000);
    assert_eq!(default_mid("ETH_USDC"), 3_500_000_000);
    assert_eq!(default_mid("SOL_USDC"), 150_000_000);
    assert_eq!(default_mid("DOGE_USDC"), 100_000_000);
    let mut c = config();
    assert_eq!(targets_len(&c), 40);
    c.orders = 1;
    assert_eq!(targets_len(&c), 2);
    assert_eq!(saturating_pow10(3), 1000);
    assert_eq!(saturating_pow10(30), i64::MAX);
}

#[test]
fn order_qty_reaches_min_notional() {
    let m = market("SOL_USDC", MarketStatus::Trading);
    // 10_000_000 at 150 USDC with 9 decimals is 1.5 USDC: grows to 34_000_000 (5.1 USDC)
    assert_eq!(order_qty(&m, 150_000_000, 9), 34_000_000);
    // already enough notional
    assert_eq!(order_qty(&m, 65_000_000_000, 9), 10_000_000);
    assert_eq!(jittered_qty(34_000_000, 3, 1_000_000), 102_000_000);
    assert_eq!(jittered_qty(0, 2, 1_000_000), 1_000_000);
    assert_eq!(jittered_qty(1_500_000, 1, 1_000_000), 1_000_000);
}

#[test]
fn ladder_surrounds_the_mid() {
    let mut c = config();
    c.orders = 4;
    let ladder = target_ladder(&c, &runtime(150_000_000));
    assert_eq!(
        ladder,
        vec![
            LevelKey { side: Side::Bid, price: 149_980_000 },
            LevelKey { side: Side::Ask, price: 150_020_000 },
            LevelKey { side: Side::Bid, price: 149_970_000 },
            LevelKey { side: Side::Ask, price: 150_030_000 },
        ]
    );
    // bids below one tick are left out
    let low = target_ladder(&c, &runtime(25_000));
    assert_eq!(low, vec![LevelKey { side: Side::Ask, price: 45_000 - 5_000 }, LevelKey { side: Side::Ask, price: 55_000 - 5_000 }]);
}

#[test]
fn walking_the_mid() {
    let mut rt = runtime(150_000_000);
    walk_mid_by(&mut rt, 1);
    assert_eq!(rt.mid, 150_010_000);
    walk_mid_by(&mut rt, -3);
    assert_eq!(rt.mid, 149_980_000);
    let mut low = runtime(20_000);
    walk_mid_by(&mut low, -1);
    assert_eq!(low.mid, 100_000);
    let before = rt.mid;
    walk_mid(&mut rt, 1);
    assert!((rt.mid - before).abs() <= 10_000);
}

#[test]
fn taker_quotes_cross_the_spread() {
    assert_eq!(taker_quote(150_000_000, 2, 0, 10_000, true), Some((OrderType::Buy, 150_020_000)));
    assert_eq!(taker_quote(150_000_000, 2, 1, 10_000, false), Some((OrderType::Sell, 149_970_000)));
    assert_eq!(taker_quote(15_000, 2, 0, 10_000, false), None);
    let c = config();
    let rt = runtime(150_000_000);
    let (t, price, qty) = plan_trade(&c, &rt, 34_000_000).unwrap();
    assert!(qty == 34_000_000 || qty == 68_000_000);
    match t {
        OrderType::Buy => assert!(price == 150_020_000 || price == 150_030_000),
        OrderType::Sell => assert!(price == 149_980_000 || price == 149_970_000),
    }
}

#[test]
fn sync_plan_cancels_crossed_and_fills_nearest() {
    let mut c = config();
    c.orders = 4;
    c.max_actions = 3;
    let rt = runtime(150_000_000);
    let open = vec![
        open_order(1, "sol_usdc", OrderType::Buy, 150_000_000), // crossed
        open_order(2, "SOL_USDC", OrderType::Buy, 149_980_000), // on the ladder
        open_order(3, "SOL_USDC", OrderType::Buy, 149_980_000), // duplicate level
        open_order(4, "SOL_USDC", OrderType::Sell, 151_000_000), // off the ladder
        open_order(5, "SOL_USDC", OrderType::Sell, 150_020_000), // on the ladder
        open_order(6, "BTC_USDC", OrderType::Sell, 1), // other market
    ];
    let plan = plan_sync(&c, &rt, &open);
    // five orders in the market, keep at least 4: one cancel, the crossed one
    assert_eq!(plan.cancels, vec![1]);
    // two actions left: the nearest missing levels
    assert_eq!(
        plan.placements,
        vec![LevelKey { side: Side::Bid, price: 149_970_000 }, LevelKey { side: Side::Ask, price: 150_030_000 }]
    );
}

#[test]
fn sync_plan_on_empty_book_places_nearest_within_budget() {
    let c = config();
    let rt = runtime(150_000_000);
    let plan = plan_sync(&c, &rt, &vec![]);
    assert!(plan.cancels.is_empty());
    assert_eq!(plan.placements.len(), 6);
    assert_eq!(plan.placements[0], LevelKey { side: Side::Bid, price: 149_980_000 });
    assert_eq!(plan.placements[1], LevelKey { side: Side::Ask, price: 150_020_000 });
}

#[test]
fn resolving_markets() {
    let markets = vec![market("SOL_USDC", MarketStatus::Trading), market("BTC_USDC", MarketStatus::Halted)];
    let assets = vec![asset(" sol ", 8), asset("SOL", 9)];
    let rt = resolve_market(&markets, &assets, &"sol_usdc".to_string()).unwrap();
    assert_eq!(rt.market.symbol, "SOL_USDC");
    assert_eq!(rt.base_decimals, 9);
    assert_eq!(rt.mid, 150_000_000);
    assert!(!rt.seeded);
    assert_eq!(resolve_market(&markets, &assets, &"BTC_USDC".to_string()).err(), Some(BootstrapError::MarketNotTrading));
    assert_eq!(resolve_market(&markets, &assets, &"ETH_USDC".to_string()).err(), Some(BootstrapError::MarketNotFound));
    assert_eq!(resolve_market(&markets, &vec![], &"SOL_USDC".to_string()).err(), Some(BootstrapError::MissingDecimals));
    let mut c = config();
    c.markets = "SOL_USDC".into();
    assert_eq!(resolve_markets(&c, &markets, &assets).unwrap().len(), 1);
    c.markets = " , ".into();
    assert_eq!(resolve_markets(&c, &markets, &assets).err(), Some(BootstrapError::NoMarkets));
    c.markets = "SOL_USDC,BTC_USDC".into();
    assert_eq!(resolve_markets(&c, &markets, &assets).err(), Some(BootstrapError::MarketNotTrading));
}

#[test]
fn listing_checks_assets() {
    let params = |base: &str, quote: &str| InsertMarketParams {
        symbol: "SOL_USDC".into(),
        name: "SOL / USDC".into(),
        base_asset_symbol: base.into(),
        quote_asset_symbol: quote.into(),
        price_tick_size: 1,
        quantity_step_size: 1,
        min_order_quantity: 1,
        min_order_notional: 1,
    };
    let assets = vec![
        Asset { id: 7, symbol: "SOL".into(), name: "Solana".into(), decimals: 9, status: AssetStatus::Active, created_at: 0 },
        Asset { id: 8, symbol: "USDC".into(), name: "USD Coin".into(), decimals: 6, status: AssetStatus::Active, created_at: 0 },
    ];
    assert_eq!(listing_assets(&params("SOL", "USDC"), &assets), Ok((7, 8)));
    assert_eq!(listing_assets(&params("SOL", "SOL"), &assets), Err(ListingError::SameAssets));
    assert_eq!(listing_assets(&params("SOL", "EUR"), &assets), Err(ListingError::AssetNotFound));
}

#[test]
fn cycle_choices_follow_the_draws() {
    let mut c = config();
    assert_eq!(choose_cycle(&c, true, true), (true, true));
    assert_eq!(choose_cycle(&c, false, true), (false, true));
    assert_eq!(choose_cycle(&c, true, false), (true, false));
    c.trades = 0;
    assert_eq!(choose_cycle(&c, true, true), (true, false));
}
