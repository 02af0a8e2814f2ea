//! Crediting a user's available balance (a deposit).
use vstd::prelude::*;
use crate::commands::apply_command::ApplyError;
use crate::external::now_micros;
use crate::memory::{asset_index, balance_index, find_asset, find_balance, OrderEngineState, StateModel};
use crate::types::{Balance, LedgerEntryType, LedgerIntent, ReferenceType};

verus! {

/// The deposit intent recorded for a credit of `amount`.
pub open spec fn deposit_intent(command_id: u128, b: Balance, amount: i64) -> LedgerIntent {
    LedgerIntent {
        command_id,
        sequence: 0,
        user_id: b.user_id,
        asset_id: b.asset_id,
        entry_type: LedgerEntryType::Deposit,
        available_delta: amount,
        locked_delta: 0,
        available_after: b.available,
        locked_after: b.locked,
        reference_id: Some(command_id),
        reference_type: Some(ReferenceType::Command),
    }
}

/// The balances with a row for `user` in `asset` (a zero row stamped `now`
/// added at the end when there was none), and the row's position.
pub open spec fn balances_with_row(bs: Seq<Balance>, user: u128, asset: u128, now: i64) -> (Seq<Balance>, int) {
    match balance_index(bs, user, asset) {
        Some(i) => (bs, i),
        None => (
            bs.push(Balance { user_id: user, asset_id: asset, available: 0, locked: 0, updated_at: now }),
            bs.len() as int,
        ),
    }
}

/// Crediting `amount` to the available balance of `user` in `asset` at time
/// `now`: rejected unless the amount is positive and the asset is known;
/// the balance row is created (at zero) when missing; an available balance
/// that would leave the `i64` range is an overflow and changes nothing else.
pub open spec fn spec_credit_balance(
    s: StateModel,
    command_id: u128,
    user: u128,
    asset: u128,
    amount: i64,
    now: i64,
) -> (StateModel, Result<LedgerIntent, ApplyError>) {
    if amount <= 0 {
        (s, Err(ApplyError::InvalidAmount))
    } else if asset_index(s.assets, asset) is None {
        (s, Err(ApplyError::AssetNotFound))
    } else {
        let (bs, i) = balances_with_row(s.balances, user, asset, now);
        let b = bs[i];
        let v = b.available + amount;
        if v > i64::MAX {
            (StateModel { balances: bs, ..s }, Err(ApplyError::Overflow))
        } else {
            let nb = Balance { available: v as i64, updated_at: now, ..b };
            (StateModel { balances: bs.update(i, nb), ..s }, Ok(deposit_intent(command_id, nb, amount)))
        }
    }
}

/// Credits `amount` to the available balance of `user_id` in `asset_id`,
/// stamping the balance with `now`.
pub fn credit_balance_at(
    state: &mut OrderEngineState,
    command_id: u128,
    user_id: u128,
    asset_id: u128,
    amount: i64,
    now: i64,
) -> (r: Result<LedgerIntent, ApplyError>)
    requires
        old(state).wf(),
    ensures
        final(state).wf(),
        (final(state)@, r) == spec_credit_balance(old(state)@, command_id, user_id, asset_id, amount, now),
{
    if amount <= 0 {
        return Err(ApplyError::InvalidAmount);
    }
    if find_asset(&state.assets, asset_id).is_none() {
        return Err(ApplyError::AssetNotFound);
    }
    let i = match find_balance(&state.balances, user_id, asset_id) {
        Some(i) => i,
        None => {
            state.balances.push(
                Balance { user_id, asset_id, available: 0, locked: 0, updated_at: now },
            );
            state.balances.len() - 1
        },
    };
    let b = state.balances[i];
    match b.available.checked_add(amount) {
        None => Err(ApplyError::Overflow),
        Some(v) => {
            let nb = Balance { available: v, updated_at: now, ..b };
            state.balances.set(i, nb);
            Ok(
                LedgerIntent {
                    command_id,
                    sequence: 0,
                    user_id,
                    asset_id,
                    entry_type: LedgerEntryType::Deposit,
                    available_delta: amount,
                    locked_delta: 0,
                    available_after: nb.available,
                    locked_after: nb.locked,
                    reference_id: Some(command_id),
                    reference_type: Some(ReferenceType::Command),
                },
            )
        },
    }
}

/// Credits `amount` to the available balance of `user_id` in `asset_id`,
/// stamped with the current time.
pub fn credit_balance(
    state: &mut OrderEngineState,
    command_id: u128,
    user_id: u128,
    asset_id: u128,
    amount: i64,
) -> (r: Result<LedgerIntent, ApplyError>)
    requires
        old(state).wf(),
    ensures
        final(state).wf(),
        exists|now: i64|
            now >= 0 && (final(state)@, r) == spec_credit_balance(old(state)@, command_id, user_id, asset_id, amount, now),
{
    let now = now_micros();
    credit_balance_at(state, command_id, user_id, asset_id, amount, now)
}

} // verus!
