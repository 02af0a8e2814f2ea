#![allow(dead_code)]
use chrono::Utc;
use order_engine::commands::apply_command::{apply_command, apply_command_effects, checked_apply_command_effects, commit_command, revert_intents, ApplyError, ApplyOutcome};
use order_engine::helper::order_id::parse_order_id;
use order_engine::helper::quote_notional::quote_notional;
use order_engine::memory::OrderEngineState;
use order_engine::types::{Asset, AssetStatus, Balance, BookLevel, Command, Market, MarketStatus, Order, OrderBook, OrderStatus, OrderType};
use uuid::Uuid;

const MARKET: &str = "SOL_USDC";
// 150 USDC (6dp) x 0.1 SOL (9dp): notional 15 USDC
const PRICE: i64 = 150_000_000;
const QTY: i64 = 100_000_000;
const BUY_NOTIONAL: i64 = 15_000_000;
const USDC_AVAILABLE: i64 = 100_000_000;
const SOL_AVAILABLE: i64 = 1_000_000_000;

struct Fixture {
    state: OrderEngineState,
    user_id: u128,
    other_user_id: u128,
    sol_id: u128,
    usdc_id: u128,
}

fn new_id() -> u128 {
    Uuid::new_v4().as_u128()
}

fn fixture() -> Fixture {
    let now = Utc::now().timestamp_micros();
    let user_id = new_id();
    let other_user_id = new_id();
    let sol_id = new_id();
    let usdc_id = new_id();

    let mut state = OrderEngineState::new();
    state.assets = vec![
        Asset {
            id: sol_id,
            symbol: "SOL".into(),
            name: "Solana".into(),
            decimals: 9,
            status: AssetStatus::Active,
            created_at: now,
        },
        Asset {
            id: usdc_id,
            symbol: "USDC".into(),
            name: "USD Coin".into(),
            decimals: 6,
            status: AssetStatus::Active,
            created_at: now,
        },
    ];
    state.markets = vec![Market {
        id: new_id(),
        symbol: MARKET.into(),
        name: "SOL / USDC".into(),
        base_asset_id: sol_id,
        quote_asset_id: usdc_id,
        status: MarketStatus::Trading,
        price_tick_size: 10_000,
        quantity_step_size: 1_000_000,
        min_order_quantity: 10_000_000,
        min_order_notional: 5_000_000,
        created_at: now,
    }];

    for (uid, available_sol, available_usdc) in [
        (user_id, SOL_AVAILABLE, USDC_AVAILABLE),
        (other_user_id, SOL_AVAILABLE, USDC_AVAILABLE),
    ] {
        state.balances.push(Balance {
            user_id: uid,
            asset_id: usdc_id,
            available: available_usdc,
            locked: 0,
            updated_at: now,
        });
        state.balances.push(Balance {
            user_id: uid,
            asset_id: sol_id,
            available: available_sol,
            locked: 0,
            updated_at: now,
        });
    }

    Fixture { state, user_id, other_user_id, sol_id, usdc_id }
}

fn balance(state: &OrderEngineState, user: u128, asset: u128) -> Option<&Balance> {
    state.balances.iter().find(|b| b.user_id == user && b.asset_id == asset)
}

fn order(state: &OrderEngineState, id: u64) -> Option<&Order> {
    state.orders.iter().find(|o| o.id == id)
}

fn book<'a>(state: &'a OrderEngineState, symbol: &str) -> Option<&'a OrderBook> {
    state.books.iter().find(|b| b.market_symbol == symbol).map(|b| &b.book)
}

fn level(side: &[BookLevel], price: i64) -> Option<&BookLevel> {
    side.iter().find(|l| l.price == price)
}

fn create(fx: &mut Fixture, user: u128, t: OrderType, price: i64, quantity: i64) -> Result<(), ApplyError> {
    apply_command(
        &mut fx.state,
        Command::CreateOrder { command_id: new_id(), user_id: user, market_symbol: MARKET.into(), order_type: t, price, quantity },
    )
}

#[test]
fn quote_notional_exact_values() {
    assert_eq!(quote_notional(PRICE, QTY, 9), Ok(BUY_NOTIONAL));
    assert_eq!(quote_notional(3, 7, 0), Ok(21));
    assert_eq!(quote_notional(-15, 1, 1), Ok(-1));
    assert_eq!(quote_notional(1, 1, -1), Err(ApplyError::AssetNotFound));
    assert_eq!(quote_notional(i64::MAX, i64::MAX, 0), Err(ApplyError::Overflow));
    assert_eq!(quote_notional(1, 1, 40), Err(ApplyError::Overflow));
}

#[test]
fn parse_order_id_takes_canonical_decimals_only() {
    assert_eq!(parse_order_id(&"1".to_string()), Some(1));
    assert_eq!(parse_order_id(&"18446744073709551615".to_string()), Some(u64::MAX));
    assert_eq!(parse_order_id(&"18446744073709551616".to_string()), None);
    assert_eq!(parse_order_id(&"007".to_string()), None);
    assert_eq!(parse_order_id(&"".to_string()), None);
    assert_eq!(parse_order_id(&"12a".to_string()), None);
    assert_eq!(parse_order_id(&"0".to_string()), Some(0));
}

#[test]
fn create_order_errors() {
    let mut fx = fixture();
    let u = fx.user_id;
    assert_eq!(create(&mut fx, u, OrderType::Buy, 0, QTY), Err(ApplyError::InvalidPrice));
    assert_eq!(create(&mut fx, u, OrderType::Buy, PRICE, 0), Err(ApplyError::InvalidQuantity));
    assert_eq!(create(&mut fx, u, OrderType::Buy, PRICE + 1, QTY), Err(ApplyError::InvalidTickSize));
    assert_eq!(create(&mut fx, u, OrderType::Buy, PRICE, QTY + 1), Err(ApplyError::InvalidQuantityStep));
    assert_eq!(create(&mut fx, u, OrderType::Buy, PRICE, 1_000_000), Err(ApplyError::BelowMinQuantity));
    assert_eq!(create(&mut fx, u, OrderType::Buy, 10_000, 10_000_000), Err(ApplyError::BelowMinNotional));
    assert_eq!(create(&mut fx, u, OrderType::Buy, PRICE * 100, QTY), Err(ApplyError::InsufficientBalance));
    assert_eq!(create(&mut fx, new_id(), OrderType::Sell, PRICE, QTY), Err(ApplyError::InsufficientBalance));
    let err = apply_command(
        &mut fx.state,
        Command::CreateOrder {
            command_id: new_id(),
            user_id: u,
            market_symbol: "BTC_USDC".into(),
            order_type: OrderType::Buy,
            price: PRICE,
            quantity: QTY,
        },
    );
    assert_eq!(err, Err(ApplyError::MarketNotFound));
    fx.state.markets[0].status = MarketStatus::Halted;
    assert_eq!(create(&mut fx, u, OrderType::Buy, PRICE, QTY), Err(ApplyError::MarketNotTrading));
    assert!(fx.state.orders.is_empty());
    assert_eq!(balance(&fx.state, u, fx.usdc_id).unwrap().available, USDC_AVAILABLE);
}

#[test]
fn create_order_with_unknown_base_asset() {
    let mut fx = fixture();
    fx.state.markets[0].base_asset_id = new_id();
    let u = fx.user_id;
    assert_eq!(create(&mut fx, u, OrderType::Buy, PRICE, QTY), Err(ApplyError::AssetNotFound));
}

#[test]
fn credit_errors() {
    let mut fx = fixture();
    let r = apply_command(
        &mut fx.state,
        Command::CreditBalance { command_id: new_id(), user_id: fx.user_id, asset_id: fx.usdc_id, amount: 0 },
    );
    assert_eq!(r, Err(ApplyError::InvalidAmount));
    let r = apply_command(
        &mut fx.state,
        Command::CreditBalance { command_id: new_id(), user_id: fx.user_id, asset_id: fx.usdc_id, amount: i64::MAX },
    );
    assert_eq!(r, Err(ApplyError::Overflow));
}

#[test]
fn cancel_errors() {
    let mut fx = fixture();
    let u = fx.user_id;
    let cancel = |id: &str| Command::CancelOrder { command_id: Uuid::new_v4().as_u128(), user_id: u, order_id: id.into() };
    assert_eq!(apply_command(&mut fx.state, cancel("1")), Err(ApplyError::OrderNotFound));
    assert_eq!(apply_command(&mut fx.state, cancel("x")), Err(ApplyError::OrderNotFound));
    create(&mut fx, u, OrderType::Sell, PRICE, QTY).unwrap();
    let other = fx.other_user_id;
    create(&mut fx, other, OrderType::Buy, PRICE, QTY).unwrap();
    // order 1 is filled now
    assert_eq!(apply_command(&mut fx.state, cancel("1")), Err(ApplyError::OrderNotCancellable));
}

#[test]
fn price_time_priority_fills_best_price_then_oldest() {
    let mut fx = fixture();
    let u = fx.user_id;
    let o = fx.other_user_id;
    create(&mut fx, o, OrderType::Sell, PRICE + 10_000, QTY).unwrap(); // 1
    create(&mut fx, o, OrderType::Sell, PRICE, QTY).unwrap(); // 2
    create(&mut fx, o, OrderType::Sell, PRICE, QTY).unwrap(); // 3
    create(&mut fx, u, OrderType::Buy, PRICE + 10_000, QTY).unwrap(); // 4
    assert_eq!(fx.state.trades.len(), 1);
    assert_eq!(fx.state.trades[0].maker_order_id, 2);
    assert_eq!(fx.state.trades[0].taker_order_id, 4);
    assert_eq!(fx.state.trades[0].price, PRICE);
    assert_eq!(order(&fx.state, 3).unwrap().status, OrderStatus::Active);
    assert_eq!(order(&fx.state, 4).unwrap().status, OrderStatus::Filled);
    // the buyer locked at its own limit and paid the maker's price; the rest is released
    let usdc = balance(&fx.state, u, fx.usdc_id).unwrap();
    assert_eq!(usdc.locked, 0);
    assert_eq!(usdc.available, USDC_AVAILABLE - BUY_NOTIONAL);
}

#[test]
fn reverting_intents_restores_balances() {
    let mut fx = fixture();
    let before: Vec<(i64, i64)> = fx.state.balances.iter().map(|b| (b.available, b.locked)).collect();
    let outcome = apply_command_effects(
        &mut fx.state,
        Command::CreateOrder {
            command_id: new_id(),
            user_id: fx.user_id,
            market_symbol: MARKET.into(),
            order_type: OrderType::Buy,
            price: PRICE,
            quantity: QTY,
        },
    )
    .unwrap();
    let intents = match outcome {
        ApplyOutcome::Applied { intents, .. } => intents,
        other => panic!("expected Applied, got {other:?}"),
    };
    revert_intents(&mut fx.state, &intents);
    let after: Vec<(i64, i64)> = fx.state.balances.iter().map(|b| (b.available, b.locked)).collect();
    assert_eq!(before, after);
}

#[test]
fn committed_command_is_skipped() {
    let mut fx = fixture();
    let command_id = new_id();
    let cmd = Command::CreditBalance { command_id, user_id: fx.user_id, asset_id: fx.usdc_id, amount: 5 };
    let first = apply_command_effects(&mut fx.state, cmd.clone()).unwrap();
    assert!(matches!(first, ApplyOutcome::Applied { .. }));
    commit_command(&mut fx.state, command_id);
    let again = apply_command_effects(&mut fx.state, cmd).unwrap();
    assert_eq!(again, ApplyOutcome::AlreadyProcessed);
    assert_eq!(balance(&fx.state, fx.user_id, fx.usdc_id).unwrap().available, USDC_AVAILABLE + 5);
}

#[test]
fn trades_conserve_each_asset() {
    let mut fx = fixture();
    let total = |s: &OrderEngineState, a: u128| -> i64 { s.balances.iter().filter(|b| b.asset_id == a).map(|b| b.available + b.locked).sum() };
    let sol0 = total(&fx.state, fx.sol_id);
    let usdc0 = total(&fx.state, fx.usdc_id);
    let (u, o) = (fx.user_id, fx.other_user_id);
    create(&mut fx, o, OrderType::Sell, PRICE, QTY / 2).unwrap();
    create(&mut fx, u, OrderType::Buy, PRICE + 20_000, QTY).unwrap();
    apply_command(&mut fx.state, Command::CancelOrder { command_id: new_id(), user_id: u, order_id: "2".into() }).unwrap();
    assert_eq!(total(&fx.state, fx.sol_id), sol0);
    assert_eq!(total(&fx.state, fx.usdc_id), usdc0);
}

#[test]
fn cancel_after_unmatched_create_restores_every_balance() {
    let mut fx = fixture();
    let before: Vec<(u128, u128, i64, i64)> =
        fx.state.balances.iter().map(|b| (b.user_id, b.asset_id, b.available, b.locked)).collect();
    let u = fx.user_id;
    let trades = fx.state.trades.len();
    create(&mut fx, u, OrderType::Buy, PRICE, QTY).unwrap();
    assert_eq!(fx.state.trades.len(), trades);
    assert_eq!(balance(&fx.state, u, fx.usdc_id).unwrap().locked, BUY_NOTIONAL);
    apply_command(&mut fx.state, Command::CancelOrder { command_id: new_id(), user_id: u, order_id: "1".into() }).unwrap();
    let after: Vec<(u128, u128, i64, i64)> =
        fx.state.balances.iter().map(|b| (b.user_id, b.asset_id, b.available, b.locked)).collect();
    assert_eq!(before, after);
    assert_eq!(order(&fx.state, 1).unwrap().status, OrderStatus::Cancelled);
    let bids = &book(&fx.state, MARKET).unwrap().bids;
    assert!(bids.iter().all(|l| l.orders.iter().all(|o| o.order_id != 1)));
}

#[test]
fn applying_a_command_twice_is_applying_it_once() {
    let mut fx = fixture();
    let cmd = Command::CreateOrder {
        command_id: new_id(),
        user_id: fx.user_id,
        market_symbol: MARKET.into(),
        order_type: OrderType::Buy,
        price: PRICE,
        quantity: QTY,
    };
    apply_command(&mut fx.state, cmd.clone()).unwrap();
    let balances: Vec<(i64, i64)> = fx.state.balances.iter().map(|b| (b.available, b.locked)).collect();
    let (orders, processed) = (fx.state.orders.len(), fx.state.processed_commands.clone());
    apply_command(&mut fx.state, cmd).unwrap();
    let again: Vec<(i64, i64)> = fx.state.balances.iter().map(|b| (b.available, b.locked)).collect();
    assert_eq!(balances, again);
    assert_eq!(fx.state.orders.len(), orders);
    assert_eq!(fx.state.processed_commands, processed);
}

#[test]
fn a_rejected_command_stays_unprocessed_and_can_be_retried() {
    let mut fx = fixture();
    let command_id = new_id();
    let cmd = Command::CreateOrder {
        command_id,
        user_id: fx.user_id,
        market_symbol: MARKET.into(),
        order_type: OrderType::Buy,
        price: PRICE,
        quantity: QTY * 100,
    };
    assert_eq!(apply_command(&mut fx.state, cmd.clone()), Err(ApplyError::InsufficientBalance));
    assert!(!fx.state.processed_commands.contains(&command_id));
    apply_command(
        &mut fx.state,
        Command::CreditBalance { command_id: new_id(), user_id: fx.user_id, asset_id: fx.usdc_id, amount: 2_000_000_000 },
    )
    .unwrap();
    assert_eq!(apply_command(&mut fx.state, cmd), Ok(()));
    assert!(fx.state.processed_commands.contains(&command_id));
}

#[test]
fn a_credit_raises_its_asset_total_by_the_amount() {
    let mut fx = fixture();
    let total = |s: &OrderEngineState, a: u128| -> i64 { s.balances.iter().filter(|b| b.asset_id == a).map(|b| b.available + b.locked).sum() };
    let (sol0, usdc0) = (total(&fx.state, fx.sol_id), total(&fx.state, fx.usdc_id));
    apply_command(&mut fx.state, Command::CreditBalance { command_id: new_id(), user_id: new_id(), asset_id: fx.usdc_id, amount: 7 })
        .unwrap();
    assert_eq!(total(&fx.state, fx.usdc_id), usdc0 + 7);
    assert_eq!(total(&fx.state, fx.sol_id), sol0);
}

#[test]
fn trade_ids_are_version_4_and_times_are_not_negative() {
    let mut fx = fixture();
    let (u, o) = (fx.user_id, fx.other_user_id);
    create(&mut fx, o, OrderType::Sell, PRICE, QTY).unwrap();
    create(&mut fx, u, OrderType::Buy, PRICE, QTY).unwrap();
    assert_eq!(fx.state.trades.len(), 1);
    let t = &fx.state.trades[0];
    assert_eq!((t.id >> 76) & 0xf, 4);
    assert_eq!((t.id >> 62) & 0x3, 2);
    assert!(t.created_at >= 0);
    assert!(fx.state.orders.iter().all(|o| o.created_at >= 0));
}

#[test]
fn balances_stay_non_negative_and_books_positive() {
    let mut fx = fixture();
    let (u, o) = (fx.user_id, fx.other_user_id);
    create(&mut fx, o, OrderType::Sell, PRICE, QTY / 2).unwrap();
    create(&mut fx, o, OrderType::Sell, PRICE + 10_000, QTY / 2).unwrap();
    create(&mut fx, u, OrderType::Buy, PRICE + 20_000, QTY * 2).unwrap();
    create(&mut fx, o, OrderType::Sell, PRICE, QTY / 2).unwrap();
    apply_command(&mut fx.state, Command::CancelOrder { command_id: new_id(), user_id: u, order_id: "3".into() }).unwrap();
    assert!(fx.state.balances.iter().all(|b| b.available >= 0 && b.locked >= 0));
    assert!(fx.state.orders.iter().all(|o| o.price > 0));
    let b = book(&fx.state, MARKET).unwrap();
    for side in [&b.bids, &b.asks] {
        assert!(side.iter().all(|l| l.price > 0 && l.orders.iter().all(|o| o.quantity > 0)));
    }
}

#[test]
fn a_balance_created_by_a_trade_holds_nothing_locked() {
    let mut fx = fixture();
    let newcomer = new_id();
    apply_command(
        &mut fx.state,
        Command::CreditBalance { command_id: new_id(), user_id: newcomer, asset_id: fx.usdc_id, amount: USDC_AVAILABLE },
    )
    .unwrap();
    assert!(balance(&fx.state, newcomer, fx.sol_id).is_none());
    let o = fx.other_user_id;
    create(&mut fx, o, OrderType::Sell, PRICE, QTY).unwrap();
    create(&mut fx, newcomer, OrderType::Buy, PRICE, QTY).unwrap();
    let sol = balance(&fx.state, newcomer, fx.sol_id).unwrap();
    assert_eq!((sol.available, sol.locked), (QTY, 0));
}

#[test]
fn checked_apply_reports_what_would_not_compute_as_overflow() {
    let mut fx = fixture();
    fx.state.markets[0].price_tick_size = 0;
    let cmd = Command::CreateOrder {
        command_id: new_id(),
        user_id: fx.user_id,
        market_symbol: MARKET.into(),
        order_type: OrderType::Buy,
        price: PRICE,
        quantity: QTY,
    };
    assert_eq!(checked_apply_command_effects(&mut fx.state, cmd), Err(ApplyError::Overflow));
    let mut fx = fixture();
    let cmd = Command::CreateOrder {
        command_id: new_id(),
        user_id: fx.user_id,
        market_symbol: MARKET.into(),
        order_type: OrderType::Buy,
        price: PRICE,
        quantity: QTY,
    };
    assert!(matches!(checked_apply_command_effects(&mut fx.state, cmd), Ok(ApplyOutcome::Applied { .. })));
    assert_eq!(balance(&fx.state, fx.user_id, fx.usdc_id).unwrap().locked, BUY_NOTIONAL);
}

#[test]
fn a_fill_below_the_buyers_limit_refunds_the_difference() {
    let mut fx = fixture();
    let (u, o) = (fx.user_id, fx.other_user_id);
    create(&mut fx, o, OrderType::Sell, PRICE, QTY).unwrap();
    create(&mut fx, u, OrderType::Buy, PRICE + 20_000, QTY).unwrap();
    let buyer_quote = balance(&fx.state, u, fx.usdc_id).unwrap();
    assert_eq!((buyer_quote.available, buyer_quote.locked), (USDC_AVAILABLE - BUY_NOTIONAL, 0));
    let buyer_base = balance(&fx.state, u, fx.sol_id).unwrap();
    assert_eq!((buyer_base.available, buyer_base.locked), (SOL_AVAILABLE + QTY, 0));
    let seller_quote = balance(&fx.state, o, fx.usdc_id).unwrap();
    assert_eq!((seller_quote.available, seller_quote.locked), (USDC_AVAILABLE + BUY_NOTIONAL, 0));
    let seller_base = balance(&fx.state, o, fx.sol_id).unwrap();
    assert_eq!((seller_base.available, seller_base.locked), (SOL_AVAILABLE - QTY, 0));
}
