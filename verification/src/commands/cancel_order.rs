//! Cancelling an open order: take it off the book and release what it
//! still has reserved.
use vstd::prelude::*;
use crate::commands::apply_command::{intents_view, ApplyError, Run};
use crate::external::now_micros;
use crate::helper::match_order::with_order;
use crate::helper::order_id::{parse_order_id, spec_parse_order_id};
use crate::helper::quote_notional::{quote_notional, spec_quote_notional};
use crate::helper::remove_from_book::{remove_from_book, spec_remove_from_book};
use crate::helper::settle::{fits_i64, with_balance};
use crate::memory::{
    asset_index, balance_index, book_index, book_wf, books_view, find_asset, find_balance, find_book, find_market, find_order,
    market_index, order_index, orders_view, OrderEngineState, StateModel,
};
use crate::types::{Balance, LedgerEntryType, LedgerIntent, MarketBookModel, OrderModel, OrderStatus, OrderType, ReferenceType};

verus! {

/// The intent recording the release of `amount` reserved by a cancelled order.
pub open spec fn unlock_intent(command_id: u128, b: Balance, amount: i64) -> LedgerIntent {
    LedgerIntent {
        command_id,
        sequence: 0,
        user_id: b.user_id,
        asset_id: b.asset_id,
        entry_type: LedgerEntryType::Unlock,
        available_delta: amount,
        locked_delta: (-amount) as i64,
        available_after: b.available,
        locked_after: b.locked,
        reference_id: Some(command_id),
        reference_type: Some(ReferenceType::Order),
    }
}

/// The asset and amount an open order still holds in reserve: the quote
/// notional of its remaining quantity for a buy, the remaining base
/// quantity for a sell.
pub open spec fn reserved_by(o: OrderModel, base: u128, quote: u128, base_decimals: i32) -> Result<(u128, i64), ApplyError> {
    match o.order_type {
        OrderType::Buy => match spec_quote_notional(o.price, o.remaining() as i64, base_decimals) {
            Ok(n) => Ok((quote, n)),
            Err(e) => Err(e),
        },
        OrderType::Sell => Ok((base, o.remaining() as i64)),
    }
}

/// Releasing the reservation of the cancelled order and marking it cancelled.
pub open spec fn release_and_mark(
    s1: StateModel,
    command_id: u128,
    oi: int,
    o: OrderModel,
    asset: u128,
    amount: i64,
    now: i64,
) -> Run<Seq<LedgerIntent>> {
    match balance_index(s1.balances, o.user_id, asset) {
        None => Run::Failed(s1, ApplyError::InsufficientBalance),
        Some(bi) => {
            let b = s1.balances[bi];
            if b.locked < amount {
                Run::Failed(s1, ApplyError::InsufficientBalance)
            } else if !fits_i64(b.locked - amount) || !fits_i64(b.available + amount) || amount == i64::MIN {
                Run::Panic
            } else {
                let nb = Balance {
                    locked: (b.locked - amount) as i64,
                    available: (b.available + amount) as i64,
                    updated_at: now,
                    ..b
                };
                let s2 = with_balance(s1, bi, nb);
                Run::Done(
                    with_order(s2, oi, OrderModel { status: OrderStatus::Cancelled, cancelled_at: Some(now), ..o }),
                    seq![unlock_intent(command_id, nb, amount)],
                )
            }
        },
    }
}

/// Cancelling the order named by `order_id` on behalf of `user` at time
/// `now`. Rejected, with nothing changed, when the text names no order, the
/// order is another user's, is not open or has nothing left, its market or
/// base asset is unknown, its reservation cannot be computed, or it is not
/// on its book. Otherwise it leaves the book, its reservation moves from
/// locked back to available (which must hold it: if not, the book change
/// stays and the balance is insufficient), and it becomes cancelled.
pub open spec fn spec_cancel_order(s: StateModel, command_id: u128, user: u128, order_id: Seq<char>, now: i64) -> Run<Seq<LedgerIntent>> {
    match spec_parse_order_id(order_id) {
        None => Run::Failed(s, ApplyError::OrderNotFound),
        Some(id) => match order_index(s.orders, id) {
            None => Run::Failed(s, ApplyError::OrderNotFound),
            Some(oi) => {
                let o = s.orders[oi];
                if o.user_id != user {
                    Run::Failed(s, ApplyError::Unauthorized)
                } else if !o.is_open() {
                    Run::Failed(s, ApplyError::OrderNotCancellable)
                } else if !fits_i64(o.remaining()) {
                    Run::Panic
                } else if o.remaining() <= 0 {
                    Run::Failed(s, ApplyError::OrderNotCancellable)
                } else {
                    match market_index(s.markets, o.market_symbol) {
                        None => Run::Failed(s, ApplyError::MarketNotFound),
                        Some(mi) => {
                            let m = s.markets[mi];
                            match asset_index(s.assets, m.base_asset_id) {
                                None => Run::Failed(s, ApplyError::AssetNotFound),
                                Some(ai) => match reserved_by(o, m.base_asset_id, m.quote_asset_id, s.assets[ai].decimals) {
                                    Err(e) => Run::Failed(s, e),
                                    Ok((asset, amount)) => match book_index(s.books, o.market_symbol) {
                                        None => Run::Failed(s, ApplyError::OrderNotFound),
                                        Some(bki) => match spec_remove_from_book(s.books[bki].book, o.order_type, o.price, id) {
                                            Err(e) => Run::Failed(s, e),
                                            Ok(nb) => {
                                                let s1 = StateModel {
                                                    books: s.books.update(bki, MarketBookModel { book: nb, ..s.books[bki] }),
                                                    ..s
                                                };
                                                release_and_mark(s1, command_id, oi, o, asset, amount, now)
                                            },
                                        },
                                    },
                                },
                            }
                        },
                    }
                }
            },
        },
    }
}

/// Cancels an order at time `now`, as `spec_cancel_order` says.
pub fn cancel_order_at(
    state: &mut OrderEngineState,
    command_id: u128,
    user_id: u128,
    order_id: String,
    now: i64,
) -> (r: Result<Vec<LedgerIntent>, ApplyError>)
    requires
        old(state).wf(),
    ensures
        final(state).wf(),
        spec_cancel_order(old(state)@, command_id, user_id, order_id@, now).agrees_checked(final(state)@, intents_view(r)),
{
    let ghost s0 = state@;
    let id = match parse_order_id(&order_id) {
        Some(id) => id,
        None => return Err(ApplyError::OrderNotFound),
    };
    let oi = match find_order(&state.orders, id) {
        Some(i) => i,
        None => return Err(ApplyError::OrderNotFound),
    };
    let order = &state.orders[oi];
    if order.user_id != user_id {
        return Err(ApplyError::Unauthorized);
    }
    match order.status {
        OrderStatus::Active | OrderStatus::PartiallyFilled => {},
        _ => return Err(ApplyError::OrderNotCancellable),
    }
    let remaining = match order.checked_remaining() {
        Some(v) => v,
        None => return Err(ApplyError::Overflow),
    };
    if remaining <= 0 {
        return Err(ApplyError::OrderNotCancellable);
    }
    let market_symbol = order.market_symbol.clone();
    let order_type = order.order_type;
    let price = order.price;
    let order_user_id = order.user_id;

    let mi = match find_market(&state.markets, &market_symbol) {
        Some(i) => i,
        None => return Err(ApplyError::MarketNotFound),
    };
    let base_asset_id = state.markets[mi].base_asset_id;
    let quote_asset_id = state.markets[mi].quote_asset_id;
    let ai = match find_asset(&state.assets, base_asset_id) {
        Some(i) => i,
        None => return Err(ApplyError::AssetNotFound),
    };
    let (unlock_asset_id, unlock_amount) = match order_type {
        OrderType::Buy => match quote_notional(price, remaining, state.assets[ai].decimals) {
            Ok(n) => (quote_asset_id, n),
            Err(e) => return Err(e),
        },
        OrderType::Sell => (base_asset_id, remaining),
    };

    let bki = match find_book(&state.books, &market_symbol) {
        Some(i) => i,
        None => return Err(ApplyError::OrderNotFound),
    };
    let mut mb = state.books.remove(bki);
    let ghost mbm = mb@;
    assert(books_view(state.books@) =~= s0.books.remove(bki as int));
    assert(book_wf(mbm.book));
    let removed = remove_from_book(&mut mb.book, order_type, price, id);
    let ghost nmb = mb@;
    state.books.insert(bki, mb);
    assert(books_view(state.books@) =~= s0.books.update(bki as int, nmb));
    assert forall|k: int| 0 <= k < state@.books.len() implies book_wf(#[trigger] state@.books[k].book) by {
        if k != bki {
            assert(state@.books[k] == s0.books[k]);
        }
    }
    if let Err(e) = removed {
        assert(s0.books.update(bki as int, nmb) =~= s0.books);
        return Err(e);
    }

    let bi = match find_balance(&state.balances, order_user_id, unlock_asset_id) {
        Some(i) => i,
        None => return Err(ApplyError::InsufficientBalance),
    };
    let b = state.balances[bi];
    if b.locked < unlock_amount {
        return Err(ApplyError::InsufficientBalance);
    }
    let new_locked: i128 = b.locked as i128 - unlock_amount as i128;
    let new_available: i128 = b.available as i128 + unlock_amount as i128;
    if new_locked > i64::MAX as i128 || new_available > i64::MAX as i128 || new_available < i64::MIN as i128
        || unlock_amount == i64::MIN {
        return Err(ApplyError::Overflow);
    }
    let nb = Balance {
        locked: b.locked - unlock_amount,
        available: b.available + unlock_amount,
        updated_at: now,
        ..b
    };
    state.balances.set(bi, nb);

    let intent = LedgerIntent {
        command_id,
        sequence: 0,
        user_id: order_user_id,
        asset_id: unlock_asset_id,
        entry_type: LedgerEntryType::Unlock,
        available_delta: unlock_amount,
        locked_delta: -unlock_amount,
        available_after: nb.available,
        locked_after: nb.locked,
        reference_id: Some(command_id),
        reference_type: Some(ReferenceType::Order),
    };

    let ghost s2 = state@;
    let mut o = state.orders[oi].duplicate();
    o.status = OrderStatus::Cancelled;
    o.cancelled_at = Some(now);
    let ghost om = o@;
    state.orders.set(oi, o);
    assert(orders_view(state.orders@) =~= s2.orders.update(oi as int, om));
    let mut intents: Vec<LedgerIntent> = Vec::new();
    intents.push(intent);
    assert(intents@ =~= seq![intent]);
    Ok(intents)
}

/// Cancels an order, stamped with the current time.
pub fn cancel_order(
    state: &mut OrderEngineState,
    command_id: u128,
    user_id: u128,
    order_id: String,
) -> (r: Result<Vec<LedgerIntent>, ApplyError>)
    requires
        old(state).wf(),
        forall|now: i64| !(#[trigger] spec_cancel_order(old(state)@, command_id, user_id, order_id@, now) is Panic),
    ensures
        final(state).wf(),
        exists|now: i64| now >= 0 && (#[trigger] spec_cancel_order(old(state)@, command_id, user_id, order_id@, now)).agrees(final(state)@, intents_view(r)),
{
    let now = now_micros();
    assert(!(spec_cancel_order(old(state)@, command_id, user_id, order_id@, now) is Panic));
    cancel_order_at(state, command_id, user_id, order_id, now)
}

} // verus!
