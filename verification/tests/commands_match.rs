#![allow(dead_code)]
use chrono::Utc;
use order_engine::commands::apply_command::{apply_command, apply_command_effects, ApplyError, ApplyOutcome};
use order_engine::memory::OrderEngineState;
use order_engine::types::{
    Asset, AssetStatus, Balance, BookLevel, Command, LedgerEntryType, Market, MarketStatus, Order, OrderBook, OrderStatus,
    OrderType,
};
use uuid::Uuid;

const MARKET: &str = "SOL_USDC";
// 150 USDC (6dp) x 0.1 SOL (9dp): notional 15 USDC
const PRICE: i64 = 150_000_000;
const QTY: i64 = 100_000_000;
const BUY_NOTIONAL: i64 = 15_000_000;
const USDC_AVAILABLE: i64 = 100_000_000;
const SOL_AVAILABLE: i64 = 1_000_000_000;

struct Fixture {
    state: OrderEngineState,
    user_id: u128,
    other_user_id: u128,
    sol_id: u128,
    usdc_id: u128,
}

fn new_id() -> u128 {
    Uuid::new_v4().as_u128()
}

fn fixture() -> Fixture {
    let now = Utc::now().timestamp_micros();
    let user_id = new_id();
    let other_user_id = new_id();
    let sol_id = new_id();
    let usdc_id = new_id();

    let mut state = OrderEngineState::new();
    state.assets = vec![
        Asset {
            id: sol_id,
            symbol: "SOL".into(),
            name: "Solana".into(),
            decimals: 9,
            status: AssetStatus::Active,
            created_at: now,
        },
        Asset {
            id: usdc_id,
            symbol: "USDC".into(),
            name: "USD Coin".into(),
            decimals: 6,
            status: AssetStatus::Active,
            created_at: now,
        },
    ];
    state.markets = vec![Market {
        id: new_id(),
        symbol: MARKET.into(),
        name: "SOL / USDC".into(),
        base_asset_id: sol_id,
        quote_asset_id: usdc_id,
        status: MarketStatus::Trading,
        price_tick_size: 10_000,
        quantity_step_size: 1_000_000,
        min_order_quantity: 10_000_000,
        min_order_notional: 5_000_000,
        created_at: now,
    }];

    for (uid, available_sol, available_usdc) in [
        (user_id, SOL_AVAILABLE, USDC_AVAILABLE),
        (other_user_id, SOL_AVAILABLE, USDC_AVAILABLE),
    ] {
        state.balances.push(Balance {
            user_id: uid,
            asset_id: usdc_id,
            available: available_usdc,
            locked: 0,
            updated_at: now,
        });
        state.balances.push(Balance {
            user_id: uid,
            asset_id: sol_id,
            available: available_sol,
            locked: 0,
            updated_at: now,
        });
    }

    Fixture { state, user_id, other_user_id, sol_id, usdc_id }
}

fn balance(state: &OrderEngineState, user: u128, asset: u128) -> Option<&Balance> {
    state.balances.iter().find(|b| b.user_id == user && b.asset_id == asset)
}

fn order(state: &OrderEngineState, id: u64) -> Option<&Order> {
    state.orders.iter().find(|o| o.id == id)
}

fn book<'a>(state: &'a OrderEngineState, symbol: &str) -> Option<&'a OrderBook> {
    state.books.iter().find(|b| b.market_symbol == symbol).map(|b| &b.book)
}

fn level(side: &[BookLevel], price: i64) -> Option<&BookLevel> {
    side.iter().find(|l| l.price == price)
}

#[test]
fn full_fill_settles_balances_and_clears_book() {
    let mut fx = fixture();

    apply_command(
        &mut fx.state,
        Command::CreateOrder {
            command_id: new_id(),
            user_id: fx.other_user_id,
            market_symbol: MARKET.into(),
            order_type: OrderType::Sell,
            price: PRICE,
            quantity: QTY,
        },
    )
    .unwrap();

    apply_command(
        &mut fx.state,
        Command::CreateOrder {
            command_id: new_id(),
            user_id: fx.user_id,
            market_symbol: MARKET.into(),
            order_type: OrderType::Buy,
            price: PRICE,
            quantity: QTY,
        },
    )
    .unwrap();

    assert_eq!(order(&fx.state, 1).unwrap().status, OrderStatus::Filled);
    assert_eq!(order(&fx.state, 2).unwrap().status, OrderStatus::Filled);
    assert_eq!(fx.state.trades.len(), 1);
    assert_eq!(fx.state.trades[0].price, PRICE);
    assert_eq!(fx.state.trades[0].quantity, QTY);

    let buyer_usdc = balance(&fx.state, fx.user_id, fx.usdc_id).unwrap();
    assert_eq!(buyer_usdc.available, USDC_AVAILABLE - BUY_NOTIONAL);
    assert_eq!(buyer_usdc.locked, 0);
    let buyer_sol = balance(&fx.state, fx.user_id, fx.sol_id).unwrap();
    assert_eq!(buyer_sol.available, SOL_AVAILABLE + QTY);

    let seller_sol = balance(&fx.state, fx.other_user_id, fx.sol_id).unwrap();
    assert_eq!(seller_sol.available, SOL_AVAILABLE - QTY);
    assert_eq!(seller_sol.locked, 0);
    let seller_usdc = balance(&fx.state, fx.other_user_id, fx.usdc_id).unwrap();
    assert_eq!(seller_usdc.available, USDC_AVAILABLE + BUY_NOTIONAL);

    let b = book(&fx.state, MARKET).unwrap();
    assert!(b.bids.is_empty());
    assert!(b.asks.is_empty());
}

#[test]
fn partial_fill_rests_remaining_buy() {
    let mut fx = fixture();
    let sell_qty = QTY / 2; // 0.05 SOL
    let fill_notional = BUY_NOTIONAL / 2;

    apply_command(
        &mut fx.state,
        Command::CreateOrder {
            command_id: new_id(),
            user_id: fx.other_user_id,
            market_symbol: MARKET.into(),
            order_type: OrderType::Sell,
            price: PRICE,
            quantity: sell_qty,
        },
    )
    .unwrap();

    apply_command(
        &mut fx.state,
        Command::CreateOrder {
            command_id: new_id(),
            user_id: fx.user_id,
            market_symbol: MARKET.into(),
            order_type: OrderType::Buy,
            price: PRICE,
            quantity: QTY,
        },
    )
    .unwrap();

    let sell = order(&fx.state, 1).unwrap();
    assert_eq!(sell.status, OrderStatus::Filled);

    let buy = order(&fx.state, 2).unwrap();
    assert_eq!(buy.status, OrderStatus::PartiallyFilled);
    assert_eq!(buy.filled_quantity, sell_qty);
    assert_eq!(buy.remaining(), sell_qty);

    let buyer_usdc = balance(&fx.state, fx.user_id, fx.usdc_id).unwrap();
    assert_eq!(buyer_usdc.available, USDC_AVAILABLE - BUY_NOTIONAL);
    assert_eq!(buyer_usdc.locked, BUY_NOTIONAL - fill_notional);

    let b = book(&fx.state, MARKET).unwrap();
    let queue = level(&b.bids, PRICE).unwrap();
    assert_eq!(queue.orders.len(), 1);
    assert_eq!(queue.orders[0].quantity, sell_qty);
    assert!(b.asks.is_empty());
}
