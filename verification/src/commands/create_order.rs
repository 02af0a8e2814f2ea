//! Placing a limit order: validate it against the market's rules, reserve
//! the funds, match it, and rest what is left on the book.
use vstd::prelude::*;
use crate::commands::apply_command::{agrees_intents, agrees_intents_checked, intents_view, ApplyError, Run};
use crate::external::{all_v4, now_micros};
use crate::helper::match_order::{match_ctx, match_order, spec_match, with_order};
use crate::helper::quote_notional::{lemma_pow10_positive, quote_notional, spec_quote_notional};
use crate::helper::rest_on_book::{rest_on_book, spec_rest_on_book};
use crate::helper::settle::{fits_i64, with_balance};
use crate::memory::{
    asset_index, balance_index, find_asset, find_balance, find_market, find_order, market_index, order_index, orders_view,
    OrderEngineState, StateModel,
};
use crate::types::{
    Balance, BookOrder, LedgerEntryType, LedgerIntent, MarketStatus, Order, OrderModel, OrderStatus, OrderType, ReferenceType,
};

verus! {

/// The intent recording the reservation of `amount` for a new order.
pub open spec fn lock_intent(command_id: u128, b: Balance, amount: i64) -> LedgerIntent {
    LedgerIntent {
        command_id,
        sequence: 0,
        user_id: b.user_id,
        asset_id: b.asset_id,
        entry_type: LedgerEntryType::Lock,
        available_delta: (-amount) as i64,
        locked_delta: amount,
        available_after: b.available,
        locked_after: b.locked,
        reference_id: Some(command_id),
        reference_type: Some(ReferenceType::Order),
    }
}

/// A new order, unfilled and active.
pub open spec fn new_order(id: u64, user: u128, symbol: Seq<char>, t: OrderType, price: i64, qty: i64, now: i64) -> OrderModel {
    OrderModel {
        id,
        user_id: user,
        market_symbol: symbol,
        order_type: t,
        price,
        quantity: qty,
        filled_quantity: 0,
        status: OrderStatus::Active,
        created_at: now,
        filled_at: None,
        cancelled_at: None,
    }
}

/// The orders with `o` stored under its id, replacing an order with that id.
pub open spec fn orders_with(os: Seq<OrderModel>, o: OrderModel) -> Seq<OrderModel> {
    match order_index(os, o.id) {
        Some(i) => os.update(i, o),
        None => os.push(o),
    }
}

/// After matching: the new order's unfilled rest goes on the book, and the
/// reservation intent comes before the trade intents.
pub open spec fn finish_create(
    run: Run<(Seq<LedgerIntent>, i32)>,
    id: u64,
    user: u128,
    symbol: Seq<char>,
    t: OrderType,
    price: i64,
    lock: LedgerIntent,
) -> Run<Seq<LedgerIntent>> {
    match run {
        Run::Done(s3, (its, _)) => match s3.order(id) {
            None => Run::Failed(s3, ApplyError::OrderNotFound),
            Some(o) => if !fits_i64(o.remaining()) {
                Run::Panic
            } else if o.remaining() > 0 {
                Run::Done(
                    spec_rest_on_book(s3, symbol, t, price, BookOrder { user_id: user, order_id: id, quantity: o.remaining() as i64 }),
                    seq![lock] + its,
                )
            } else {
                Run::Done(s3, seq![lock] + its)
            },
        },
        Run::Failed(s3, e) => Run::Failed(s3, e),
        Run::Panic => Run::Panic,
    }
}

/// Placing a limit order of `user` on market `symbol` at time `now`, with
/// trade ids taken from `ids`. Rejected, with nothing changed, unless price
/// and quantity are positive, the market exists and trades, the price is a
/// multiple of the tick, the quantity a multiple of the step and at least the
/// minimum, the base asset is known, the notional can be computed and is at
/// least the minimum, and the user has enough available in the asset to
/// reserve (the notional in the quote asset for a buy, the quantity in the
/// base asset for a sell). Otherwise the amount moves from available to
/// locked, the order gets the next id, is matched, and what is left of it
/// rests on the book.
pub open spec fn spec_create_order(
    s: StateModel,
    command_id: u128,
    user: u128,
    symbol: Seq<char>,
    t: OrderType,
    price: i64,
    qty: i64,
    now: i64,
    ids: Seq<u128>,
) -> Run<Seq<LedgerIntent>> {
    if price <= 0 {
        Run::Failed(s, ApplyError::InvalidPrice)
    } else if qty <= 0 {
        Run::Failed(s, ApplyError::InvalidQuantity)
    } else {
        match market_index(s.markets, symbol) {
            None => Run::Failed(s, ApplyError::MarketNotFound),
            Some(mi) => {
                let m = s.markets[mi];
                if m.status != MarketStatus::Trading {
                    Run::Failed(s, ApplyError::MarketNotTrading)
                } else if m.price_tick_size == 0 {
                    Run::Panic
                } else if price % m.price_tick_size != 0 {
                    Run::Failed(s, ApplyError::InvalidTickSize)
                } else if m.quantity_step_size == 0 {
                    Run::Panic
                } else if qty % m.quantity_step_size != 0 {
                    Run::Failed(s, ApplyError::InvalidQuantityStep)
                } else if qty < m.min_order_quantity {
                    Run::Failed(s, ApplyError::BelowMinQuantity)
                } else {
                    match asset_index(s.assets, m.base_asset_id) {
                        None => Run::Failed(s, ApplyError::AssetNotFound),
                        Some(ai) => {
                            let dec = s.assets[ai].decimals;
                            match spec_quote_notional(price, qty, dec) {
                                Err(e) => Run::Failed(s, e),
                                Ok(notional) => if notional < m.min_order_notional {
                                    Run::Failed(s, ApplyError::BelowMinNotional)
                                } else {
                                    let (ra, ramt) = match t {
                                        OrderType::Buy => (m.quote_asset_id, notional),
                                        OrderType::Sell => (m.base_asset_id, qty),
                                    };
                                    match balance_index(s.balances, user, ra) {
                                        None => Run::Failed(s, ApplyError::InsufficientBalance),
                                        Some(bi) => {
                                            let b = s.balances[bi];
                                            if b.available < ramt {
                                                Run::Failed(s, ApplyError::InsufficientBalance)
                                            } else if !fits_i64(b.locked + ramt) || s.next_order_id == u64::MAX {
                                                Run::Panic
                                            } else {
                                                let nb = Balance {
                                                    available: (b.available - ramt) as i64,
                                                    locked: (b.locked + ramt) as i64,
                                                    updated_at: now,
                                                    ..b
                                                };
                                                let id = s.next_order_id;
                                                let s1 = with_balance(s, bi, nb);
                                                let s2 = StateModel {
                                                    orders: orders_with(s1.orders, new_order(id, user, symbol, t, price, qty, now)),
                                                    next_order_id: (id + 1) as u64,
                                                    ..s1
                                                };
                                                let ctx = match_ctx(id, m.id, symbol, m.base_asset_id, m.quote_asset_id, dec, command_id, now);
                                                finish_create(spec_match(s2, ctx, ids, 1, Seq::empty()), id, user, symbol, t, price,
                                                    lock_intent(command_id, nb, ramt))
                                            }
                                        },
                                    }
                                },
                            }
                        },
                    }
                }
            },
        }
    }
}

/// Stores `o` under its id, replacing an order with that id.
pub fn upsert_order(state: &mut OrderEngineState, o: Order)
    ensures
        final(state)@ == (StateModel { orders: orders_with(old(state)@.orders, o@), ..old(state)@ }),
{
    let ghost before = state@;
    let ghost om = o@;
    match find_order(&state.orders, o.id) {
        Some(i) => {
            state.orders.set(i, o);
            assert(orders_view(state.orders@) =~= before.orders.update(i as int, om));
        },
        None => {
            state.orders.push(o);
            assert(orders_view(state.orders@) =~= before.orders.push(om));
        },
    }
}

/// Places a limit order at time `now`, as `spec_create_order` says for the
/// trade ids that were drawn.
pub fn create_order_at(
    state: &mut OrderEngineState,
    command_id: u128,
    user_id: u128,
    market_symbol: String,
    order_type: OrderType,
    price: i64,
    quantity: i64,
    now: i64,
) -> (r: Result<Vec<LedgerIntent>, ApplyError>)
    requires
        old(state).wf(),
    ensures
        final(state).wf(),
        exists|ids: Seq<u128>| all_v4(ids) && (#[trigger] spec_create_order(old(state)@, command_id, user_id, market_symbol@, order_type, price,
            quantity, now, ids)).agrees_checked(final(state)@, intents_view(r)),
{
    let ghost s0 = state@;
    if price <= 0 {
        assert(spec_create_order(s0, command_id, user_id, market_symbol@, order_type, price, quantity, now, Seq::empty())
            .agrees(state@, Err::<Seq<LedgerIntent>, ApplyError>(ApplyError::InvalidPrice)));
        return Err(ApplyError::InvalidPrice);
    }
    if quantity <= 0 {
        assert(spec_create_order(s0, command_id, user_id, market_symbol@, order_type, price, quantity, now, Seq::empty())
            .agrees(state@, Err::<Seq<LedgerIntent>, ApplyError>(ApplyError::InvalidQuantity)));
        return Err(ApplyError::InvalidQuantity);
    }
    let mi = match find_market(&state.markets, &market_symbol) {
        Some(i) => i,
        None => {
            assert(spec_create_order(s0, command_id, user_id, market_symbol@, order_type, price, quantity, now, Seq::empty())
                .agrees(state@, Err::<Seq<LedgerIntent>, ApplyError>(ApplyError::MarketNotFound)));
            return Err(ApplyError::MarketNotFound);
        },
    };
    let market = &state.markets[mi];
    if market.status == MarketStatus::Trading && (market.price_tick_size == 0
        || (price % market.price_tick_size == 0 && market.quantity_step_size == 0)) {
        assert(spec_create_order(s0, command_id, user_id, market_symbol@, order_type, price, quantity, now, Seq::empty()) is Panic);
        return Err(ApplyError::Overflow);
    }
    let r0 = if market.status != MarketStatus::Trading {
        Err(ApplyError::MarketNotTrading)
    } else if price % market.price_tick_size != 0 {
        Err(ApplyError::InvalidTickSize)
    } else if quantity % market.quantity_step_size != 0 {
        Err(ApplyError::InvalidQuantityStep)
    } else if quantity < market.min_order_quantity {
        Err(ApplyError::BelowMinQuantity)
    } else {
        Ok(())
    };
    if let Err(e) = r0 {
        assert(spec_create_order(s0, command_id, user_id, market_symbol@, order_type, price, quantity, now, Seq::empty())
            .agrees(state@, Err::<Seq<LedgerIntent>, ApplyError>(e)));
        return Err(e);
    }
    let market_id = market.id;
    let base_asset_id = market.base_asset_id;
    let quote_asset_id = market.quote_asset_id;
    let min_order_notional = market.min_order_notional;
    let ai = match find_asset(&state.assets, base_asset_id) {
        Some(i) => i,
        None => {
            assert(spec_create_order(s0, command_id, user_id, market_symbol@, order_type, price, quantity, now, Seq::empty())
                .agrees(state@, Err::<Seq<LedgerIntent>, ApplyError>(ApplyError::AssetNotFound)));
            return Err(ApplyError::AssetNotFound);
        },
    };
    let base_decimals = state.assets[ai].decimals;
    assert(price * quantity > 0) by (nonlinear_arith)
        requires
            price > 0,
            quantity > 0,
    ;
    proof {
        if base_decimals >= 0 {
            lemma_pow10_positive(base_decimals as nat);
        }
    }
    let r1 = match quote_notional(price, quantity, base_decimals) {
        Ok(n) => if n < min_order_notional { Err(ApplyError::BelowMinNotional) } else { Ok(n) },
        Err(e) => Err(e),
    };
    let notional = match r1 {
        Ok(n) => n,
        Err(e) => {
            assert(spec_create_order(s0, command_id, user_id, market_symbol@, order_type, price, quantity, now, Seq::empty())
                .agrees(state@, Err::<Seq<LedgerIntent>, ApplyError>(e)));
            return Err(e);
        },
    };
    let (reserve_asset_id, reserve_amount) = match order_type {
        OrderType::Buy => (quote_asset_id, notional),
        OrderType::Sell => (base_asset_id, quantity),
    };
    let bi = match find_balance(&state.balances, user_id, reserve_asset_id) {
        Some(i) => i,
        None => {
            assert(spec_create_order(s0, command_id, user_id, market_symbol@, order_type, price, quantity, now, Seq::empty())
                .agrees(state@, Err::<Seq<LedgerIntent>, ApplyError>(ApplyError::InsufficientBalance)));
            return Err(ApplyError::InsufficientBalance);
        },
    };
    let b = state.balances[bi];
    if b.available < reserve_amount {
        assert(spec_create_order(s0, command_id, user_id, market_symbol@, order_type, price, quantity, now, Seq::empty())
            .agrees(state@, Err::<Seq<LedgerIntent>, ApplyError>(ApplyError::InsufficientBalance)));
        return Err(ApplyError::InsufficientBalance);
    }
    let new_locked: i128 = b.locked as i128 + reserve_amount as i128;
    if new_locked > i64::MAX as i128 || new_locked < i64::MIN as i128 || state.next_order_id == u64::MAX {
        assert(spec_create_order(s0, command_id, user_id, market_symbol@, order_type, price, quantity, now, Seq::empty()) is Panic);
        return Err(ApplyError::Overflow);
    }
    let nb = Balance {
        available: b.available - reserve_amount,
        locked: b.locked + reserve_amount,
        updated_at: now,
        ..b
    };
    state.balances.set(bi, nb);
    let lock = LedgerIntent {
        command_id,
        sequence: 0,
        user_id,
        asset_id: reserve_asset_id,
        entry_type: LedgerEntryType::Lock,
        available_delta: -reserve_amount,
        locked_delta: reserve_amount,
        available_after: nb.available,
        locked_after: nb.locked,
        reference_id: Some(command_id),
        reference_type: Some(ReferenceType::Order),
    };
    let mut next_sequence: i32 = 1;

    let order_id = state.next_order_id;
    let order = Order::new(order_id, user_id, market_symbol.clone(), order_type, price, quantity, now);
    upsert_order(state, order);
    state.next_order_id = order_id + 1;
    let ghost s2 = state@;
    let ghost ctx = match_ctx(order_id, market_id, market_symbol@, base_asset_id, quote_asset_id, base_decimals, command_id, now);
    let trade_intents = match_order(
        state, command_id, &mut next_sequence, order_id, market_id, &market_symbol, base_asset_id, quote_asset_id,
        base_decimals, now,
    );
    let ghost ids = choose|ids: Seq<u128>| all_v4(ids) && agrees_intents_checked(#[trigger] spec_match(s2, ctx, ids, 1, Seq::empty()), state@,
        trade_intents, next_sequence);
    assert(spec_create_order(s0, command_id, user_id, market_symbol@, order_type, price, quantity, now, ids)
        == finish_create(spec_match(s2, ctx, ids, 1, Seq::empty()), order_id, user_id, market_symbol@, order_type, price,
            lock_intent(command_id, nb, reserve_amount)));
    let trade_intents = match trade_intents {
        Ok(v) => v,
        Err(e) => {
            assert(spec_create_order(s0, command_id, user_id, market_symbol@, order_type, price, quantity, now, ids)
                .agrees_checked(state@, Err::<Seq<LedgerIntent>, ApplyError>(e)));
            return Err(e);
        },
    };
    let mut intents: Vec<LedgerIntent> = Vec::new();
    intents.push(lock);
    let mut trade_intents = trade_intents;
    let ghost tv = trade_intents@;
    intents.append(&mut trade_intents);
    assert(intents@ =~= seq![lock] + tv);
    let oi = match find_order(&state.orders, order_id) {
        Some(i) => i,
        None => {
            assert(spec_create_order(s0, command_id, user_id, market_symbol@, order_type, price, quantity, now, ids)
                .agrees(state@, Err::<Seq<LedgerIntent>, ApplyError>(ApplyError::OrderNotFound)));
            return Err(ApplyError::OrderNotFound);
        },
    };
    let remaining = match state.orders[oi].checked_remaining() {
        Some(v) => v,
        None => {
            assert(spec_create_order(s0, command_id, user_id, market_symbol@, order_type, price, quantity, now, ids) is Panic);
            return Err(ApplyError::Overflow);
        },
    };
    if remaining > 0 {
        rest_on_book(state, &market_symbol, order_type, price, BookOrder { user_id, order_id, quantity: remaining });
    }
    assert(spec_create_order(s0, command_id, user_id, market_symbol@, order_type, price, quantity, now, ids)
        .agrees(state@, Ok::<Seq<LedgerIntent>, ApplyError>(intents@)));
    Ok(intents)
}

/// Places a limit order stamped with the current time.
pub fn create_order(
    state: &mut OrderEngineState,
    command_id: u128,
    user_id: u128,
    market_symbol: String,
    order_type: OrderType,
    price: i64,
    quantity: i64,
) -> (r: Result<Vec<LedgerIntent>, ApplyError>)
    requires
        old(state).wf(),
        forall|now: i64, ids: Seq<u128>| !(#[trigger] spec_create_order(old(state)@, command_id, user_id, market_symbol@,
            order_type, price, quantity, now, ids) is Panic),
    ensures
        final(state).wf(),
        exists|now: i64, ids: Seq<u128>| now >= 0 && all_v4(ids) && (#[trigger] spec_create_order(old(state)@, command_id, user_id,
            market_symbol@, order_type, price, quantity, now, ids)).agrees(final(state)@, intents_view(r)),
{
    let now = now_micros();
    let r = create_order_at(state, command_id, user_id, market_symbol, order_type, price, quantity, now);
    r
}

} // verus!
