#![allow(dead_code)]
use chrono::Utc;
use order_engine::commands::apply_command::{apply_command, apply_command_effects, ApplyError, ApplyOutcome};
use order_engine::events::build_events::{
    affected_book_markets, build_exchange_events, checked_build_exchange_events, checked_snapshot_books, snapshot_books, touched_books_fit,
    ExchangeEvent,
};
use order_engine::helper::diff_book_levels::{diff_book_levels, OrderBookLevelDelta};
use order_engine::memory::replay::{
    affected_books_fit, cancel_market_of, checked_prepare_command, finish_command, durable_outcome, finish_step, next_step, prepare_command, record_applied, record_live, record_pending, record_replay, revert_fits,
    unreadable_entry, EntryDecision,
    should_snapshot, start_cursor, touch_cursor, DurableApply, NextStep,
};
use order_engine::memory::snapshot::{apply_payload, build_payload, SnapshotMeta, DEFAULT_CURSOR};
use order_engine::memory::OrderEngineState;
use order_engine::queries::answer_query::{OrderBookDepth, PriceLevel};
use order_engine::types::{Asset, AssetStatus, Balance, BookLevel, BookSide, Command, Market, MarketStatus, Order, OrderBook, OrderType};
use uuid::Uuid;

const MARKET: &str = "SOL_USDC";
// 150 USDC (6dp) x 0.1 SOL (9dp): notional 15 USDC
const PRICE: i64 = 150_000_000;
const QTY: i64 = 100_000_000;
const BUY_NOTIONAL: i64 = 15_000_000;
const USDC_AVAILABLE: i64 = 100_000_000;
const SOL_AVAILABLE: i64 = 1_000_000_000;

struct Fixture {
    state: OrderEngineState,
    user_id: u128,
    other_user_id: u128,
    sol_id: u128,
    usdc_id: u128,
}

fn new_id() -> u128 {
    Uuid::new_v4().as_u128()
}

fn fixture() -> Fixture {
    let now = Utc::now().timestamp_micros();
    let user_id = new_id();
    let other_user_id = new_id();
    let sol_id = new_id();
    let usdc_id = new_id();

    let mut state = OrderEngineState::new();
    state.assets = vec![
        Asset {
            id: sol_id,
            symbol: "SOL".into(),
            name: "Solana".into(),
            decimals: 9,
            status: AssetStatus::Active,
            created_at: now,
        },
        Asset {
            id: usdc_id,
            symbol: "USDC".into(),
            name: "USD Coin".into(),
            decimals: 6,
            status: AssetStatus::Active,
            created_at: now,
        },
    ];
    state.markets = vec![Market {
        id: new_id(),
        symbol: MARKET.into(),
        name: "SOL / USDC".into(),
        base_asset_id: sol_id,
        quote_asset_id: usdc_id,
        status: MarketStatus::Trading,
        price_tick_size: 10_000,
        quantity_step_size: 1_000_000,
        min_order_quantity: 10_000_000,
        min_order_notional: 5_000_000,
        created_at: now,
    }];

    for (uid, available_sol, available_usdc) in [
        (user_id, SOL_AVAILABLE, USDC_AVAILABLE),
        (other_user_id, SOL_AVAILABLE, USDC_AVAILABLE),
    ] {
        state.balances.push(Balance {
            user_id: uid,
            asset_id: usdc_id,
            available: available_usdc,
            locked: 0,
            updated_at: now,
        });
        state.balances.push(Balance {
            user_id: uid,
            asset_id: sol_id,
            available: available_sol,
            locked: 0,
            updated_at: now,
        });
    }

    Fixture { state, user_id, other_user_id, sol_id, usdc_id }
}

fn balance(state: &OrderEngineState, user: u128, asset: u128) -> Option<&Balance> {
    state.balances.iter().find(|b| b.user_id == user && b.asset_id == asset)
}

fn order(state: &OrderEngineState, id: u64) -> Option<&Order> {
    state.orders.iter().find(|o| o.id == id)
}

fn book<'a>(state: &'a OrderEngineState, symbol: &str) -> Option<&'a OrderBook> {
    state.books.iter().find(|b| b.market_symbol == symbol).map(|b| &b.book)
}

fn level(side: &[BookLevel], price: i64) -> Option<&BookLevel> {
    side.iter().find(|l| l.price == price)
}

fn create_cmd(user: u128, t: OrderType, price: i64, quantity: i64) -> Command {
    Command::CreateOrder { command_id: new_id(), user_id: user, market_symbol: MARKET.into(), order_type: t, price, quantity }
}

fn depth(bids: &[(i64, i64, u32)], asks: &[(i64, i64, u32)]) -> OrderBookDepth {
    let lv = |&(price, quantity, order_count): &(i64, i64, u32)| PriceLevel { price, quantity, order_count };
    OrderBookDepth { market_symbol: MARKET.into(), bids: bids.iter().map(lv).collect(), asks: asks.iter().map(lv).collect() }
}

#[test]
fn diff_lists_changed_levels_bids_first_by_price() {
    let before = depth(&[(100, 5, 1), (90, 3, 1)], &[(110, 2, 1)]);
    let after = depth(&[(100, 5, 1), (95, 1, 1)], &[(110, 4, 2), (120, 1, 1)]);
    let d = diff_book_levels(Some(&before), Some(&after));
    let expected = vec![
        OrderBookLevelDelta { side: BookSide::Bid, price: 90, quantity: 0, order_count: 0 },
        OrderBookLevelDelta { side: BookSide::Bid, price: 95, quantity: 1, order_count: 1 },
        OrderBookLevelDelta { side: BookSide::Ask, price: 110, quantity: 4, order_count: 2 },
        OrderBookLevelDelta { side: BookSide::Ask, price: 120, quantity: 1, order_count: 1 },
    ];
    assert_eq!(d, expected);
}

#[test]
fn diff_of_identical_or_missing_snapshots() {
    let a = depth(&[(100, 5, 1)], &[(110, 2, 1)]);
    assert!(diff_book_levels(Some(&a), Some(&a)).is_empty());
    assert!(diff_book_levels(None, None).is_empty());
    let gone = diff_book_levels(Some(&a), None);
    assert_eq!(gone.len(), 2);
    assert!(gone.iter().all(|d| d.quantity == 0 && d.order_count == 0));
}

#[test]
fn affected_markets_by_command_kind() {
    let u = new_id();
    assert_eq!(affected_book_markets(&Command::CreateOrder { command_id: 1, user_id: u, market_symbol: " sol_usdc".into(), order_type: OrderType::Buy, price: 1, quantity: 1 }, None), vec!["SOL_USDC".to_string()]);
    let cancel = Command::CancelOrder { command_id: 2, user_id: u, order_id: "1".into() };
    assert_eq!(affected_book_markets(&cancel, Some("btc_usdc")), vec!["BTC_USDC".to_string()]);
    assert!(affected_book_markets(&cancel, None).is_empty());
    let credit = Command::CreditBalance { command_id: 3, user_id: u, asset_id: 4, amount: 5 };
    assert!(affected_book_markets(&credit, Some("SOL_USDC")).is_empty());
}

#[test]
fn snapshot_books_keys_each_existing_market_once() {
    let fx = fixture();
    let books = snapshot_books(&fx.state, &vec!["sol_usdc".into(), "SOL_USDC".into(), "BTC_USDC".into()]);
    assert_eq!(books.len(), 1);
    assert_eq!(books[0].market_symbol, MARKET);
}

#[test]
fn events_of_a_matching_order() {
    let mut fx = fixture();
    let (u, o) = (fx.user_id, fx.other_user_id);
    apply_command(&mut fx.state, create_cmd(o, OrderType::Sell, PRICE, QTY)).unwrap();
    let cmd = create_cmd(u, OrderType::Buy, PRICE, QTY);
    assert!(affected_books_fit(&fx.state, &cmd));
    let prep = prepare_command(&fx.state, &cmd);
    assert_eq!(prep.trades_before, 0);
    assert_eq!(prep.books_before.len(), 1);
    let outcome = apply_command_effects(&mut fx.state, cmd.clone()).unwrap();
    let intents = match outcome {
        ApplyOutcome::Applied { intents, .. } => intents,
        other => panic!("expected Applied, got {other:?}"),
    };
    assert!(touched_books_fit(&fx.state, &cmd, &intents, prep.trades_before, &prep.books_before));
    let events = build_exchange_events(&fx.state, &cmd, &intents, prep.trades_before, &prep.books_before);
    assert!(matches!(&events[0], ExchangeEvent::TradeExecuted { trade } if trade.market_symbol == MARKET && trade.quantity == QTY));
    let book_events: Vec<_> = events.iter().filter(|e| matches!(e, ExchangeEvent::OrderBookUpdated { .. })).collect();
    assert_eq!(book_events.len(), 1);
    if let ExchangeEvent::OrderBookUpdated { updates, .. } = book_events[0] {
        assert_eq!(updates.len(), 1);
        assert_eq!(updates[0].side, BookSide::Ask);
        assert_eq!(updates[0].quantity, 0);
    }
    let balance_users: Vec<u128> = events
        .iter()
        .filter_map(|e| if let ExchangeEvent::BalanceUpdated { user_id, .. } = e { Some(*user_id) } else { None })
        .collect();
    assert_eq!(balance_users.len(), 2);
    assert!(balance_users.contains(&u) && balance_users.contains(&o));
    let open_users = events.iter().filter(|e| matches!(e, ExchangeEvent::OpenOrdersUpdated { .. })).count();
    assert_eq!(open_users, 2);
}

#[test]
fn events_of_a_credit() {
    let mut fx = fixture();
    let cmd = Command::CreditBalance { command_id: new_id(), user_id: fx.user_id, asset_id: fx.usdc_id, amount: 7 };
    let prep = prepare_command(&fx.state, &cmd);
    assert!(prep.books_before.is_empty());
    apply_command(&mut fx.state, cmd.clone()).unwrap();
    let events = build_exchange_events(&fx.state, &cmd, &vec![], prep.trades_before, &prep.books_before);
    assert_eq!(events.len(), 1);
    assert!(matches!(&events[0], ExchangeEvent::BalanceUpdated { user_id, .. } if *user_id == fx.user_id));
}

#[test]
fn cancel_market_is_found_from_the_order() {
    let mut fx = fixture();
    apply_command(&mut fx.state, create_cmd(fx.user_id, OrderType::Buy, PRICE, QTY)).unwrap();
    let c = Command::CancelOrder { command_id: 1, user_id: fx.user_id, order_id: "1".into() };
    assert_eq!(cancel_market_of(&fx.state, &c), Some(MARKET.to_string()));
    let c2 = Command::CancelOrder { command_id: 1, user_id: fx.user_id, order_id: "9".into() };
    assert_eq!(cancel_market_of(&fx.state, &c2), None);
}

#[test]
fn snapshot_round_trip_keeps_open_orders_books_and_trades() {
    let mut fx = fixture();
    let (u, o) = (fx.user_id, fx.other_user_id);
    apply_command(&mut fx.state, create_cmd(o, OrderType::Sell, PRICE, QTY)).unwrap();
    apply_command(&mut fx.state, create_cmd(u, OrderType::Buy, PRICE, QTY)).unwrap();
    apply_command(&mut fx.state, create_cmd(u, OrderType::Buy, PRICE - 10_000, QTY)).unwrap();
    let payload = build_payload(&fx.state);
    assert_eq!(payload.next_order_id, 4);
    assert_eq!(payload.orders.len(), 1);
    assert_eq!(payload.orders[0].id, 3);
    assert_eq!(payload.trades.len(), 1);
    assert_eq!(payload.processed_commands.len(), 3);
    let mut fresh = OrderEngineState::new();
    fresh.processed_commands.push(42);
    apply_payload(&mut fresh, payload);
    assert_eq!(fresh.next_order_id, 4);
    assert_eq!(fresh.orders.len(), 1);
    assert_eq!(fresh.trades.len(), 1);
    assert_eq!(fresh.books.len(), fx.state.books.len());
    assert_eq!(fresh.processed_commands.len(), 4);
    assert!(fresh.processed_commands.contains(&42));
}

#[test]
fn snapshot_keeps_only_latest_trades_and_id_at_least_one() {
    let mut state = OrderEngineState::new();
    for i in 0..600u128 {
        state.trades.push(order_engine::types::Trade {
            id: i,
            market_id: 0,
            maker_order_id: 1,
            taker_order_id: 2,
            price: 1,
            quantity: 1,
            buyer_user_id: 0,
            seller_user_id: 0,
            created_at: 0,
        });
    }
    state.next_order_id = 0;
    let payload = build_payload(&state);
    assert_eq!(payload.trades.len(), 500);
    assert_eq!(payload.trades[0].id, 100);
    let mut restored = OrderEngineState::new();
    apply_payload(&mut restored, payload);
    assert_eq!(restored.next_order_id, 1);
}

#[test]
fn cursors_and_snapshot_cadence() {
    let mut meta = SnapshotMeta::default();
    assert_eq!(meta.order_commands_cursor, DEFAULT_CURSOR);
    assert_eq!(meta.engine_commands_cursor, "0-0");
    touch_cursor(&mut meta, "orders", "5-1", "orders");
    assert_eq!(meta.order_commands_cursor, "5-1");
    touch_cursor(&mut meta, "engine", "6-0", "orders");
    assert_eq!(meta.engine_commands_cursor, "6-0");
    assert_eq!(meta.order_commands_cursor, "5-1");
    assert_eq!(start_cursor(&String::new()), "0-0");
    assert_eq!(start_cursor(&"7-3".to_string()), "7-3");
    assert!(record_replay(&mut meta, true, "8-0", DurableApply::Skip));
    assert_eq!(meta.order_commands_cursor, "8-0");
    assert!(!record_replay(&mut meta, true, "9-0", DurableApply::Retry));
    assert_eq!(meta.order_commands_cursor, "8-0");
    assert_eq!(record_pending(&mut meta, false, "10-0", DurableApply::Applied), (true, false));
    assert_eq!(meta.engine_commands_cursor, "10-0");
    assert_eq!(record_pending(&mut meta, false, "11-0", DurableApply::Skip), (true, false));
    assert_eq!(meta.engine_commands_cursor, "10-0");
    assert_eq!(record_pending(&mut meta, false, "12-0", DurableApply::Retry), (false, true));
    assert!(!should_snapshot(24, false));
    assert!(should_snapshot(25, false));
    assert!(should_snapshot(0, true));
    let mut since = 24u32;
    assert!(record_applied(&mut meta, &mut since, "orders", "13-0", "orders"));
    assert_eq!(since, 25);
    assert_eq!(meta.order_commands_cursor, "13-0");
}

#[test]
fn next_step_and_finishing_a_command() {
    assert_eq!(next_step(&Ok(ApplyOutcome::AlreadyProcessed)), NextStep::AlreadyProcessed);
    assert_eq!(next_step(&Err(ApplyError::InvalidPrice)), NextStep::Rejected);
    assert_eq!(next_step(&Ok(ApplyOutcome::Applied { command_id: 9, intents: vec![] })), NextStep::Commit { command_id: 9 });
    let mut fx = fixture();
    let cmd = create_cmd(fx.user_id, OrderType::Buy, PRICE, QTY);
    let id = match &cmd {
        Command::CreateOrder { command_id, .. } => *command_id,
        _ => unreachable!(),
    };
    let r = apply_command_effects(&mut fx.state, cmd);
    assert_eq!(next_step(&r), NextStep::Persist { command_id: id });
    let intents = match r {
        Ok(ApplyOutcome::Applied { intents, .. }) => intents,
        _ => unreachable!(),
    };
    assert!(revert_fits(&fx.state, &intents));
    assert_eq!(finish_command(&mut fx.state, id, &intents, false), DurableApply::Retry);
    assert_eq!(balance(&fx.state, fx.user_id, fx.usdc_id).unwrap().available, USDC_AVAILABLE);
    assert!(!fx.state.processed_commands.contains(&id));
    assert_eq!(finish_command(&mut fx.state, id, &intents, true), DurableApply::Applied);
    assert!(fx.state.processed_commands.contains(&id));
}

#[test]
fn deltas_rebuild_the_later_snapshot() {
    let before = depth(&[(100, 5, 1), (90, 3, 1), (80, 1, 1)], &[(110, 2, 1), (130, 9, 3)]);
    let after = depth(&[(100, 6, 2), (80, 1, 1)], &[(110, 2, 1), (120, 1, 1)]);
    let map = |d: &OrderBookDepth| {
        let mut m = std::collections::BTreeMap::new();
        for l in &d.bids {
            m.insert((0u8, l.price), (l.quantity, l.order_count));
        }
        for l in &d.asks {
            m.insert((1u8, l.price), (l.quantity, l.order_count));
        }
        m
    };
    let mut rebuilt = map(&before);
    for d in diff_book_levels(Some(&before), Some(&after)) {
        let key = (if d.side == BookSide::Bid { 0u8 } else { 1u8 }, d.price);
        if d.quantity == 0 && d.order_count == 0 {
            rebuilt.remove(&key);
        } else {
            rebuilt.insert(key, (d.quantity, d.order_count));
        }
    }
    assert_eq!(rebuilt, map(&after));
}

#[test]
fn checked_entry_points_agree_with_the_plain_ones() {
    let mut fx = fixture();
    let cmd = create_cmd(fx.user_id, OrderType::Buy, PRICE, QTY);
    let prep = checked_prepare_command(&fx.state, &cmd).unwrap();
    assert_eq!(prep.books_before.len(), 1);
    let snap = checked_snapshot_books(&fx.state, &vec![MARKET.to_string()]).unwrap();
    assert_eq!(snap.len(), 1);
    let outcome = apply_command_effects(&mut fx.state, cmd.clone()).unwrap();
    let intents = match outcome {
        ApplyOutcome::Applied { intents, .. } => intents,
        other => panic!("expected Applied, got {other:?}"),
    };
    let events = checked_build_exchange_events(&fx.state, &cmd, &intents, prep.trades_before, &prep.books_before).unwrap();
    let plain = build_exchange_events(&fx.state, &cmd, &intents, prep.trades_before, &prep.books_before);
    assert_eq!(events.len(), plain.len());
    // the order rests: one book change, one open-orders and one balance event
    assert_eq!(events.len(), 3);
}

#[test]
fn live_entries_are_acked_recorded_or_kept() {
    let mut meta = SnapshotMeta::default();
    let mut since = 24u32;
    assert_eq!(record_live(&mut meta, &mut since, "orders", "1-0", "orders", DurableApply::Applied, false), (true, true));
    assert_eq!(since, 25);
    assert_eq!(meta.order_commands_cursor, "1-0");
    assert_eq!(meta.engine_commands_cursor, "0-0");
    assert_eq!(record_live(&mut meta, &mut since, "engine", "2-0", "orders", DurableApply::Skip, false), (true, false));
    assert_eq!(meta.engine_commands_cursor, "0-0");
    assert_eq!(since, 25);
    assert_eq!(record_live(&mut meta, &mut since, "engine", "3-0", "orders", DurableApply::Skip, true), (true, false));
    assert_eq!(meta.engine_commands_cursor, "3-0");
    assert_eq!(record_live(&mut meta, &mut since, "orders", "4-0", "orders", DurableApply::Retry, true), (false, false));
    assert_eq!(meta.order_commands_cursor, "1-0");
    assert_eq!(since, 25);
    let mut few = 3u32;
    assert_eq!(record_live(&mut meta, &mut few, "engine", "5-0", "orders", DurableApply::Applied, false), (true, false));
    assert_eq!(few, 4);
    assert_eq!(meta.engine_commands_cursor, "5-0");
}

#[test]
fn restored_books_are_checked_for_price_order() {
    let mut fx = fixture();
    assert!(fx.state.is_well_formed());
    let good = vec![
        BookLevel { price: 10, orders: Vec::new() },
        BookLevel { price: 20, orders: Vec::new() },
    ];
    assert!(order_engine::memory::levels_sorted(&good));
    assert!(order_engine::memory::levels_sorted(&Vec::new()));
    let bad = vec![
        BookLevel { price: 20, orders: Vec::new() },
        BookLevel { price: 20, orders: Vec::new() },
    ];
    assert!(!order_engine::memory::levels_sorted(&bad));
    let mut payload = build_payload(&fx.state);
    payload.books.push(order_engine::types::MarketBook {
        market_symbol: "ETH_USDC".to_string(),
        book: OrderBook { bids: bad, asks: Vec::new() },
    });
    apply_payload(&mut fx.state, payload);
    assert!(!fx.state.is_well_formed());
}

#[test]
fn durable_outcomes_skip_apply_or_retry() {
    let skip = EntryDecision { outcome: DurableApply::Skip, publish: false, already_processed: false };
    assert_eq!(durable_outcome(NextStep::Rejected, true), skip);
    assert_eq!(durable_outcome(NextStep::Rejected, false), skip);
    assert_eq!(
        durable_outcome(NextStep::AlreadyProcessed, true),
        EntryDecision { outcome: DurableApply::Skip, publish: false, already_processed: true }
    );
    let applied = EntryDecision { outcome: DurableApply::Applied, publish: true, already_processed: false };
    assert_eq!(durable_outcome(NextStep::Commit { command_id: 1 }, false), applied);
    assert_eq!(durable_outcome(NextStep::Persist { command_id: 1 }, true), applied);
    assert_eq!(
        durable_outcome(NextStep::Persist { command_id: 1 }, false),
        EntryDecision { outcome: DurableApply::Retry, publish: false, already_processed: false }
    );
    assert_eq!(unreadable_entry(), skip);
}

#[test]
fn a_failed_persist_is_retried_with_nothing_committed_or_published() {
    let mut fx = fixture();
    let command_id = new_id();
    let before: Vec<(i64, i64)> = fx.state.balances.iter().map(|b| (b.available, b.locked)).collect();
    let cmd = Command::CreditBalance { command_id, user_id: fx.user_id, asset_id: fx.usdc_id, amount: 9 };
    let result = apply_command_effects(&mut fx.state, cmd.clone());
    let step = next_step(&result);
    assert_eq!(step, NextStep::Persist { command_id });
    let intents = match result {
        Ok(ApplyOutcome::Applied { intents, .. }) => intents,
        _ => panic!("expected Applied"),
    };
    let d = finish_step(&mut fx.state, step, &intents, false);
    assert_eq!(d, EntryDecision { outcome: DurableApply::Retry, publish: false, already_processed: false });
    assert!(!fx.state.processed_commands.contains(&command_id));
    let after: Vec<(i64, i64)> = fx.state.balances.iter().map(|b| (b.available, b.locked)).collect();
    assert_eq!(before, after);
    let result = apply_command_effects(&mut fx.state, cmd);
    let step = next_step(&result);
    let intents = match result {
        Ok(ApplyOutcome::Applied { intents, .. }) => intents,
        _ => panic!("expected Applied"),
    };
    let d = finish_step(&mut fx.state, step, &intents, true);
    assert_eq!(d, EntryDecision { outcome: DurableApply::Applied, publish: true, already_processed: false });
    assert!(fx.state.processed_commands.contains(&command_id));
}

#[test]
fn restoring_a_snapshot_keeps_each_processed_id_once() {
    let mut fx = fixture();
    let id = new_id();
    fx.state.processed_commands.push(id);
    let payload = build_payload(&fx.state);
    apply_payload(&mut fx.state, payload);
    assert_eq!(fx.state.processed_commands.iter().filter(|x| **x == id).count(), 1);
    assert!(fx.state.is_well_formed());
    fx.state.processed_commands.push(id);
    assert!(!fx.state.is_well_formed());
}
