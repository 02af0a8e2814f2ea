#![allow(dead_code)]
use chrono::Utc;
use order_engine::commands::apply_command::apply_command;
use order_engine::memory::OrderEngineState;
use order_engine::queries::answer_query::{
    answer_query, balances_for_user, check_depth_fits, checked_answer_query, checked_order_book_depth, normalize_symbol, open_orders_for_user, order_book_depth, EngineQuery, EngineReply,
};
use order_engine::types::{
    Asset, AssetStatus, Balance, BookLevel, BookOrder, Command, Market, MarketBook, MarketStatus, Order, OrderBook, OrderType,
};
use uuid::Uuid;

const MARKET: &str = "SOL_USDC";
// 150 USDC (6dp) x 0.1 SOL (9dp): notional 15 USDC
const PRICE: i64 = 150_000_000;
const QTY: i64 = 100_000_000;
const BUY_NOTIONAL: i64 = 15_000_000;
const USDC_AVAILABLE: i64 = 100_000_000;
const SOL_AVAILABLE: i64 = 1_000_000_000;

struct Fixture {
    state: OrderEngineState,
    user_id: u128,
    other_user_id: u128,
    sol_id: u128,
    usdc_id: u128,
}

fn new_id() -> u128 {
    Uuid::new_v4().as_u128()
}

fn fixture() -> Fixture {
    let now = Utc::now().timestamp_micros();
    let user_id = new_id();
    let other_user_id = new_id();
    let sol_id = new_id();
    let usdc_id = new_id();

    let mut state = OrderEngineState::new();
    state.assets = vec![
        Asset {
            id: sol_id,
            symbol: "SOL".into(),
            name: "Solana".into(),
            decimals: 9,
            status: AssetStatus::Active,
            created_at: now,
        },
        Asset {
            id: usdc_id,
            symbol: "USDC".into(),
            name: "USD Coin".into(),
            decimals: 6,
            status: AssetStatus::Active,
            created_at: now,
        },
    ];
    state.markets = vec![Market {
        id: new_id(),
        symbol: MARKET.into(),
        name: "SOL / USDC".into(),
        base_asset_id: sol_id,
        quote_asset_id: usdc_id,
        status: MarketStatus::Trading,
        price_tick_size: 10_000,
        quantity_step_size: 1_000_000,
        min_order_quantity: 10_000_000,
        min_order_notional: 5_000_000,
        created_at: now,
    }];

    for (uid, available_sol, available_usdc) in [
        (user_id, SOL_AVAILABLE, USDC_AVAILABLE),
        (other_user_id, SOL_AVAILABLE, USDC_AVAILABLE),
    ] {
        state.balances.push(Balance {
            user_id: uid,
            asset_id: usdc_id,
            available: available_usdc,
            locked: 0,
            updated_at: now,
        });
        state.balances.push(Balance {
            user_id: uid,
            asset_id: sol_id,
            available: available_sol,
            locked: 0,
            updated_at: now,
        });
    }

    Fixture { state, user_id, other_user_id, sol_id, usdc_id }
}

fn balance(state: &OrderEngineState, user: u128, asset: u128) -> Option<&Balance> {
    state.balances.iter().find(|b| b.user_id == user && b.asset_id == asset)
}

fn order(state: &OrderEngineState, id: u64) -> Option<&Order> {
    state.orders.iter().find(|o| o.id == id)
}

fn book<'a>(state: &'a OrderEngineState, symbol: &str) -> Option<&'a OrderBook> {
    state.books.iter().find(|b| b.market_symbol == symbol).map(|b| &b.book)
}

fn level(side: &[BookLevel], price: i64) -> Option<&BookLevel> {
    side.iter().find(|l| l.price == price)
}

#[test]
fn balances_for_user_maps_assets() {
    let fx = fixture();
    let balances = balances_for_user(&fx.state, fx.user_id);
    assert!(balances.iter().any(|b| b.symbol == "USDC" && b.available == USDC_AVAILABLE));
    assert!(balances.iter().any(|b| b.symbol == "SOL"));
}

#[test]
fn answer_get_balances_query() {
    let fx = fixture();
    let request_id = new_id();
    let reply = answer_query(&fx.state, EngineQuery::GetBalances { request_id, user_id: fx.user_id });

    match reply {
        EngineReply::GetBalances { request_id: replied, balances } => {
            assert_eq!(replied, request_id);
            assert!(!balances.is_empty());
        }
        other => panic!("expected balances, got {other:?}"),
    }
}

#[test]
fn balances_come_sorted_by_symbol() {
    let fx = fixture();
    let balances = balances_for_user(&fx.state, fx.user_id);
    let symbols: Vec<&str> = balances.iter().map(|b| b.symbol.as_str()).collect();
    assert_eq!(symbols, vec!["SOL", "USDC"]);
    assert_eq!(balances[0].decimals, 9);
    assert_eq!(balances[1].name, "USD Coin");
}

#[test]
fn balances_of_unknown_user_are_empty() {
    let fx = fixture();
    assert!(balances_for_user(&fx.state, new_id()).is_empty());
}

#[test]
fn open_orders_newest_first_and_only_open() {
    let mut fx = fixture();
    for price in [PRICE, PRICE - 10_000, PRICE - 20_000] {
        apply_command(
            &mut fx.state,
            Command::CreateOrder {
                command_id: new_id(),
                user_id: fx.user_id,
                market_symbol: MARKET.into(),
                order_type: OrderType::Buy,
                price,
                quantity: QTY,
            },
        )
        .unwrap();
    }
    apply_command(&mut fx.state, Command::CancelOrder { command_id: new_id(), user_id: fx.user_id, order_id: "2".into() })
        .unwrap();
    let orders = open_orders_for_user(&fx.state, fx.user_id);
    assert_eq!(orders.len(), 2);
    assert!(orders.iter().all(|o| o.id != 2));
    assert!(orders[0].created_at >= orders[1].created_at);
    assert!(open_orders_for_user(&fx.state, fx.other_user_id).is_empty());
}

#[test]
fn depth_aggregates_levels_best_first() {
    let mut fx = fixture();
    for (price, qty) in [(PRICE, QTY), (PRICE, QTY), (PRICE - 10_000, QTY)] {
        apply_command(
            &mut fx.state,
            Command::CreateOrder {
                command_id: new_id(),
                user_id: fx.user_id,
                market_symbol: MARKET.into(),
                order_type: OrderType::Buy,
                price,
                quantity: qty,
            },
        )
        .unwrap();
    }
    apply_command(
        &mut fx.state,
        Command::CreateOrder {
            command_id: new_id(),
            user_id: fx.other_user_id,
            market_symbol: MARKET.into(),
            order_type: OrderType::Sell,
            price: PRICE + 20_000,
            quantity: QTY,
        },
    )
    .unwrap();
    let depth = order_book_depth(&fx.state, " sol_usdc ").unwrap();
    assert_eq!(depth.market_symbol, MARKET);
    assert_eq!(depth.bids.len(), 2);
    assert_eq!(depth.bids[0].price, PRICE);
    assert_eq!(depth.bids[0].quantity, 2 * QTY);
    assert_eq!(depth.bids[0].order_count, 2);
    assert_eq!(depth.bids[1].price, PRICE - 10_000);
    assert_eq!(depth.asks.len(), 1);
    assert_eq!(depth.asks[0].price, PRICE + 20_000);
}

#[test]
fn depth_of_unknown_market_is_none_and_empty_book_is_empty() {
    let fx = fixture();
    assert!(order_book_depth(&fx.state, "BTC_USDC").is_none());
    let depth = order_book_depth(&fx.state, "SOL_USDC").unwrap();
    assert!(depth.bids.is_empty() && depth.asks.is_empty());
}

#[test]
fn answer_order_book_and_open_orders_queries() {
    let fx = fixture();
    let request_id = new_id();
    match answer_query(&fx.state, EngineQuery::GetOrderBook { request_id, market_symbol: "sol_usdc".into() }) {
        EngineReply::GetOrderBook { request_id: replied, book } => {
            assert_eq!(replied, request_id);
            assert_eq!(book.unwrap().market_symbol, MARKET);
        }
        other => panic!("expected a book, got {other:?}"),
    }
    let q = EngineQuery::GetOpenOrders { request_id, user_id: fx.user_id };
    assert_eq!(q.request_id(), request_id);
    match answer_query(&fx.state, q) {
        EngineReply::GetOpenOrders { orders, .. } => assert!(orders.is_empty()),
        other => panic!("expected open orders, got {other:?}"),
    }
}

#[test]
fn normalize_symbol_trims_and_upper_cases() {
    assert_eq!(normalize_symbol("  btc_usdc\t"), "BTC_USDC");
    assert_eq!(normalize_symbol("Eth_Usdc"), "ETH_USDC");
}

#[test]
fn book_queries_refuse_a_book_that_cannot_be_totalled() {
    let mut fx = fixture();
    let big = i64::MAX / 2 + 1;
    let orders = vec![
        BookOrder { user_id: fx.user_id, order_id: 1, quantity: big },
        BookOrder { user_id: fx.user_id, order_id: 2, quantity: big },
    ];
    fx.state.books.push(MarketBook {
        market_symbol: MARKET.into(),
        book: OrderBook { bids: vec![BookLevel { price: PRICE, orders }], asks: vec![] },
    });
    assert!(!check_depth_fits(&fx.state, &MARKET.to_string()));
    assert!(check_depth_fits(&fx.state, &"BTC_USDC".to_string()));
    let r = checked_answer_query(&fx.state, EngineQuery::GetOrderBook { request_id: 1, market_symbol: "sol_usdc".into() });
    assert!(r.is_err());
    assert!(checked_order_book_depth(&fx.state, "sol_usdc").is_err());
    assert!(matches!(checked_order_book_depth(&fx.state, "btc_usdc"), Ok(None)));
    let r = checked_answer_query(&fx.state, EngineQuery::GetBalances { request_id: 2, user_id: fx.user_id });
    assert!(matches!(r, Ok(EngineReply::GetBalances { request_id: 2, .. })));
}

#[test]
fn normalize_symbol_trims_unicode_white_space() {
    assert_eq!(normalize_symbol("\u{3000}\u{a0}btc_usdc\u{2029}\u{85}"), "BTC_USDC");
    assert_eq!(normalize_symbol("\u{200b}btc"), "\u{200b}BTC");
    assert_eq!(normalize_symbol(" \n\t "), "");
}
