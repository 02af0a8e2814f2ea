//! Moving balances when a fill settles: debits of locked funds, credits of
//! available funds and the trade ledger intents that record them.
use vstd::prelude::*;
use crate::commands::apply_command::{ApplyError, Run};
use crate::commands::credit_balance::balances_with_row;
use crate::helper::quote_notional::{quote_notional, spec_quote_notional};
use crate::memory::{balance_index, find_balance, OrderEngineState, StateModel};
use crate::types::{Balance, LedgerEntryType, LedgerIntent, ReferenceType};

verus! {

pub open spec fn fits_i64(v: int) -> bool {
    i64::MIN <= v <= i64::MAX
}

pub open spec fn with_balance(s: StateModel, i: int, b: Balance) -> StateModel {
    StateModel { balances: s.balances.update(i, b), ..s }
}

/// Taking `amount` out of the locked balance of `user` in `asset`: there
/// must be such a balance with at least that much locked.
pub open spec fn spec_debit_locked(s: StateModel, user: u128, asset: u128, amount: i64, now: i64) -> Run<()> {
    match balance_index(s.balances, user, asset) {
        None => Run::Failed(s, ApplyError::InsufficientBalance),
        Some(i) => {
            let b = s.balances[i];
            if b.locked < amount {
                Run::Failed(s, ApplyError::InsufficientBalance)
            } else if !fits_i64(b.locked - amount) {
                Run::Panic
            } else {
                Run::Done(with_balance(s, i, Balance { locked: (b.locked - amount) as i64, updated_at: now, ..b }), ())
            }
        },
    }
}

/// Adding `amount` to the available balance of `user` in `asset`, creating
/// the balance at zero when missing.
pub open spec fn spec_credit_available(s: StateModel, user: u128, asset: u128, amount: i64, now: i64) -> Run<()> {
    let (bs, i) = balances_with_row(s.balances, user, asset, now);
    let b = bs[i];
    if !fits_i64(b.available + amount) {
        Run::Panic
    } else {
        Run::Done(
            StateModel {
                balances: bs.update(i, Balance { available: (b.available + amount) as i64, updated_at: now, ..b }),
                ..s
            },
            (),
        )
    }
}

/// The trade intent for a movement of `user`'s balance in `asset`.
pub open spec fn trade_entry(
    command_id: u128,
    sequence: i32,
    trade_id: u128,
    b: Balance,
    available_delta: i64,
    locked_delta: i64,
) -> LedgerIntent {
    LedgerIntent {
        command_id,
        sequence,
        user_id: b.user_id,
        asset_id: b.asset_id,
        entry_type: LedgerEntryType::Trade,
        available_delta,
        locked_delta,
        available_after: b.available,
        locked_after: b.locked,
        reference_id: Some(trade_id),
        reference_type: Some(ReferenceType::Trade),
    }
}

/// Recording a trade movement with the next sequence number; the balance
/// it reports must exist.
pub open spec fn spec_trade_intent(
    s: StateModel,
    command_id: u128,
    sequence: i32,
    trade_id: u128,
    user: u128,
    asset: u128,
    available_delta: i64,
    locked_delta: i64,
) -> Run<(LedgerIntent, i32)> {
    match s.balance(user, asset) {
        None => Run::Failed(s, ApplyError::InsufficientBalance),
        Some(b) => if sequence == i32::MAX {
            Run::Panic
        } else {
            Run::Done(s, (trade_entry(command_id, sequence, trade_id, b, available_delta, locked_delta), (sequence + 1) as i32))
        },
    }
}

/// Settling a fill of `qty` at `trade_price` between a buyer whose order
/// reserved funds at `buyer_price` and a seller: the buyer's reserved quote
/// is released (the difference to the cost refunded), the buyer receives the
/// base, the seller's locked base is taken and the seller receives the cost.
/// Four trade intents record the four movements, in that order.
pub open spec fn spec_settle_fill(
    s: StateModel,
    command_id: u128,
    sequence: i32,
    trade_id: u128,
    buyer: u128,
    seller: u128,
    buyer_price: i64,
    trade_price: i64,
    qty: i64,
    base: u128,
    quote: u128,
    base_decimals: i32,
    now: i64,
) -> Run<(Seq<LedgerIntent>, i32)> {
    match spec_quote_notional(trade_price, qty, base_decimals) {
        Err(e) => Run::Failed(s, e),
        Ok(cost) => match spec_quote_notional(buyer_price, qty, base_decimals) {
            Err(e) => Run::Failed(s, e),
            Ok(reserved) => if reserved < cost {
                Run::Failed(s, ApplyError::Overflow)
            } else if !fits_i64(reserved - cost) || reserved == i64::MIN || qty == i64::MIN {
                Run::Panic
            } else {
                let refund = (reserved - cost) as i64;
                match spec_debit_locked(s, buyer, quote, reserved, now) {
                    Run::Done(s1, _) => {
                        let r2 = if refund > 0 { spec_credit_available(s1, buyer, quote, refund, now) } else { Run::Done(s1, ()) };
                        match r2 {
                            Run::Done(s2, _) => match spec_trade_intent(s2, command_id, sequence, trade_id, buyer, quote, refund, (-reserved) as i64) {
                                Run::Done(_, (i1, q1)) => match spec_credit_available(s2, buyer, base, qty, now) {
                                    Run::Done(s3, _) => match spec_trade_intent(s3, command_id, q1, trade_id, buyer, base, qty, 0) {
                                        Run::Done(_, (i2, q2)) => match spec_debit_locked(s3, seller, base, qty, now) {
                                            Run::Done(s4, _) => match spec_trade_intent(s4, command_id, q2, trade_id, seller, base, 0, (-qty) as i64) {
                                                Run::Done(_, (i3, q3)) => match spec_credit_available(s4, seller, quote, cost, now) {
                                                    Run::Done(s5, _) => match spec_trade_intent(s5, command_id, q3, trade_id, seller, quote, cost, 0) {
                                                        Run::Done(_, (i4, q4)) => Run::Done(s5, (seq![i1, i2, i3, i4], q4)),
                                                        other => other.cast(),
                                                    },
                                                    other => other.cast(),
                                                },
                                                other => other.cast(),
                                            },
                                            other => other.cast(),
                                        },
                                        other => other.cast(),
                                    },
                                    other => other.cast(),
                                },
                                other => other.cast(),
                            },
                            other => other.cast(),
                        }
                    },
                    other => other.cast(),
                }
            },
        },
    }
}

/// Takes `amount` out of the locked balance of `user_id` in `asset_id`;
/// `Overflow` where the new amount would leave the `i64` range.
pub fn debit_locked(state: &mut OrderEngineState, user_id: u128, asset_id: u128, amount: i64, now: i64) -> (r: Result<(), ApplyError>)
    requires
        old(state).wf(),
    ensures
        final(state).wf(),
        spec_debit_locked(old(state)@, user_id, asset_id, amount, now).agrees_checked(final(state)@, r),
{
    let i = match find_balance(&state.balances, user_id, asset_id) {
        Some(i) => i,
        None => return Err(ApplyError::InsufficientBalance),
    };
    let b = state.balances[i];
    if b.locked < amount {
        return Err(ApplyError::InsufficientBalance);
    }
    let v: i128 = b.locked as i128 - amount as i128;
    if v > i64::MAX as i128 {
        return Err(ApplyError::Overflow);
    }
    state.balances.set(i, Balance { locked: v as i64, updated_at: now, ..b });
    Ok(())
}

/// Adds `amount` to the available balance of `user_id` in `asset_id`;
/// `Overflow` where the new amount would leave the `i64` range.
pub fn credit_available(state: &mut OrderEngineState, user_id: u128, asset_id: u128, amount: i64, now: i64) -> (r: Result<(), ApplyError>)
    requires
        old(state).wf(),
    ensures
        final(state).wf(),
        spec_credit_available(old(state)@, user_id, asset_id, amount, now).agrees_checked(final(state)@, r),
{
    let i = match find_balance(&state.balances, user_id, asset_id) {
        Some(i) => i,
        None => {
            state.balances.push(Balance { user_id, asset_id, available: 0, locked: 0, updated_at: now });
            state.balances.len() - 1
        },
    };
    let b = state.balances[i];
    let v: i128 = b.available as i128 + amount as i128;
    if v < i64::MIN as i128 || v > i64::MAX as i128 {
        return Err(ApplyError::Overflow);
    }
    state.balances.set(i, Balance { available: v as i64, updated_at: now, ..b });
    Ok(())
}

/// The trade intent for a movement of `user_id`'s balance in `asset_id`,
/// numbered with `*next_sequence`, which then advances.
pub fn trade_intent(
    state: &OrderEngineState,
    command_id: u128,
    next_sequence: &mut i32,
    trade_id: u128,
    user_id: u128,
    asset_id: u128,
    available_delta: i64,
    locked_delta: i64,
) -> (r: Result<LedgerIntent, ApplyError>)
    ensures
        match spec_trade_intent(state@, command_id, *old(next_sequence), trade_id, user_id, asset_id, available_delta, locked_delta) {
            Run::Done(_, (it, q)) => r == Ok::<LedgerIntent, ApplyError>(it) && *final(next_sequence) == q,
            Run::Failed(_, e) => r == Err::<LedgerIntent, ApplyError>(e) && *final(next_sequence) == *old(next_sequence),
            Run::Panic => r == Err::<LedgerIntent, ApplyError>(ApplyError::Overflow),
        },
{
    let i = match find_balance(&state.balances, user_id, asset_id) {
        Some(i) => i,
        None => return Err(ApplyError::InsufficientBalance),
    };
    let b = state.balances[i];
    let sequence = *next_sequence;
    if sequence == i32::MAX {
        return Err(ApplyError::Overflow);
    }
    *next_sequence = sequence + 1;
    Ok(
        LedgerIntent {
            command_id,
            sequence,
            user_id: b.user_id,
            asset_id: b.asset_id,
            entry_type: LedgerEntryType::Trade,
            available_delta,
            locked_delta,
            available_after: b.available,
            locked_after: b.locked,
            reference_id: Some(trade_id),
            reference_type: Some(ReferenceType::Trade),
        },
    )
}

/// Settles a fill between buyer and seller, returning its four trade
/// intents.
pub fn settle_fill(
    state: &mut OrderEngineState,
    command_id: u128,
    next_sequence: &mut i32,
    trade_id: u128,
    buyer_user_id: u128,
    seller_user_id: u128,
    buyer_order_price: i64,
    trade_price: i64,
    fill_qty: i64,
    base_asset_id: u128,
    quote_asset_id: u128,
    base_decimals: i32,
    now: i64,
) -> (r: Result<Vec<LedgerIntent>, ApplyError>)
    requires
        old(state).wf(),
    ensures
        final(state).wf(),
        match spec_settle_fill(old(state)@, command_id, *old(next_sequence), trade_id, buyer_user_id, seller_user_id,
            buyer_order_price, trade_price, fill_qty, base_asset_id, quote_asset_id, base_decimals, now) {
            Run::Done(s, (its, q)) => final(state)@ == s && r is Ok && r.unwrap()@ == its && *final(next_sequence) == q,
            Run::Failed(s, e) => final(state)@ == s && r is Err && r->Err_0 == e,
            Run::Panic => r is Err && r->Err_0 == ApplyError::Overflow,
        },
{
    let cost = match quote_notional(trade_price, fill_qty, base_decimals) {
        Ok(v) => v,
        Err(e) => return Err(e),
    };
    let buyer_reserved = match quote_notional(buyer_order_price, fill_qty, base_decimals) {
        Ok(v) => v,
        Err(e) => return Err(e),
    };
    if buyer_reserved < cost {
        return Err(ApplyError::Overflow);
    }
    if buyer_reserved == i64::MIN || fill_qty == i64::MIN {
        return Err(ApplyError::Overflow);
    }
    let rv: i128 = buyer_reserved as i128 - cost as i128;
    if rv > i64::MAX as i128 {
        return Err(ApplyError::Overflow);
    }
    let refund = rv as i64;

    let mut intents: Vec<LedgerIntent> = Vec::new();

    match debit_locked(state, buyer_user_id, quote_asset_id, buyer_reserved, now) {
        Ok(()) => {},
        Err(e) => return Err(e),
    }
    if refund > 0 {
        match credit_available(state, buyer_user_id, quote_asset_id, refund, now) {
            Ok(()) => {},
            Err(e) => return Err(e),
        }
    }
    match trade_intent(state, command_id, next_sequence, trade_id, buyer_user_id, quote_asset_id, refund, -buyer_reserved) {
        Ok(i) => intents.push(i),
        Err(e) => return Err(e),
    }

    match credit_available(state, buyer_user_id, base_asset_id, fill_qty, now) {
        Ok(()) => {},
        Err(e) => return Err(e),
    }
    match trade_intent(state, command_id, next_sequence, trade_id, buyer_user_id, base_asset_id, fill_qty, 0) {
        Ok(i) => intents.push(i),
        Err(e) => return Err(e),
    }

    match debit_locked(state, seller_user_id, base_asset_id, fill_qty, now) {
        Ok(()) => {},
        Err(e) => return Err(e),
    }
    match trade_intent(state, command_id, next_sequence, trade_id, seller_user_id, base_asset_id, 0, -fill_qty) {
        Ok(i) => intents.push(i),
        Err(e) => return Err(e),
    }

    match credit_available(state, seller_user_id, quote_asset_id, cost, now) {
        Ok(()) => {},
        Err(e) => return Err(e),
    }
    match trade_intent(state, command_id, next_sequence, trade_id, seller_user_id, quote_asset_id, cost, 0) {
        Ok(i) => intents.push(i),
        Err(e) => return Err(e),
    }
    assert(intents@ =~= seq![intents@[0], intents@[1], intents@[2], intents@[3]]);
    Ok(intents)
}

} // verus!
