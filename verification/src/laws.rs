//! Laws of the engine: what holds of every command it applies.
use vstd::prelude::*;
use crate::commands::apply_command::{applied, spec_apply_command, spec_apply_command_effects, ApplyError, spec_commit_command, spec_revert_intents, revert_one, OutcomeModel, Run};
use crate::commands::cancel_order::{release_and_mark, reserved_by, spec_cancel_order, unlock_intent};
use crate::commands::create_order::{finish_create, lock_intent, new_order, orders_with, spec_create_order};
use crate::helper::match_order::{
    fill_parties, fill_trade, lemma_first_index_push, lemma_first_index_update, lemma_some_first, with_order, lemma_settle_balances_only, match_ctx, head_id, lemma_apply_fill_keeps_ids, lemma_match_step_decreases, match_measure, spec_apply_fill, spec_fill_rest,
    spec_match, spec_match_step, tail_ids, MatchCtx,
};
use crate::helper::take_fill::{best_position, crosses, next_fill_side, Fill, opposite_side, spec_take_next_fill, with_book};
use crate::helper::rest_on_book::{insert_position, side_with_order, spec_rest_on_book};
use crate::helper::remove_from_book::{level_index, side_of, spec_remove_from_book, spec_remove_from_side, with_side};
use crate::helper::settle::{fits_i64, with_balance};
use crate::ledger::{
    avail_delta, avail_of, has_row, lemma_credit_moves, lemma_delta_append, lemma_found_row, lemma_moved_refl, lemma_moved_trans,
    lemma_delta_single, lemma_settle_moves, lemma_single_move, lemma_update_row, locked_delta, locked_of, moved_by,
};
use crate::memory::{balance_index, book_index, is_first, lemma_first_index_found, order_index, StateModel};
use crate::helper::order_id::spec_parse_order_id;
use crate::solvency::{books_ids_below, lemma_match_keeps_ids, lemma_remove_rested_leaves_none, side_ids_below, side_without};
use crate::types::{Balance, BookOrder, CommandModel, LedgerIntent, LevelModel, MarketBookModel, OrderModel, OrderStatus, OrderType};

verus! {

/// A round of matching moves the balances by the intents it returns.
pub proof fn lemma_match_step_moves(s: StateModel, ctx: MatchCtx, trade_id: u128, sequence: i32)
    ensures
        spec_match_step(s, ctx, trade_id, sequence) matches Run::Done(s1, None) ==> s1.balances == s.balances,
        spec_match_step(s, ctx, trade_id, sequence) matches Run::Done(s1, Some((its, _))) ==> moved_by(s.balances, s1.balances, its),
{
    reveal(spec_match_step);
    if let Run::Done(s1, Some(f)) = spec_take_next_fill(s, ctx.taker_id, ctx.symbol) {
        assert(s1.balances == s.balances);
        if let Run::Done(s5, (its, _)) = spec_fill_rest(s1, ctx, f, trade_id, sequence) {
            let t = s1.order(ctx.taker_id).unwrap();
            let (buyer, seller, bp) = fill_parties(s1, t, f).unwrap();
            lemma_settle_moves(s1, ctx.command_id, sequence, trade_id, buyer, seller, bp, f.maker_price, f.fill_qty,
                ctx.base, ctx.quote, ctx.base_decimals, ctx.now);
            let s2 = crate::helper::settle::spec_settle_fill(s1, ctx.command_id, sequence, trade_id, buyer, seller, bp,
                f.maker_price, f.fill_qty, ctx.base, ctx.quote, ctx.base_decimals, ctx.now)->Done_0;
            lemma_apply_fill_keeps_ids(s2, f.maker_order_id, f.fill_qty, ctx.now, ctx.taker_id);
            let s3 = spec_apply_fill(s2, f.maker_order_id, f.fill_qty, ctx.now)->Done_0;
            lemma_apply_fill_keeps_ids(s3, ctx.taker_id, f.fill_qty, ctx.now, ctx.taker_id);
            assert(s5.balances == s2.balances);
        }
    }
}

/// Matching appends intents to what it was given, and moves the balances
/// by exactly the intents it appended.
pub proof fn lemma_match_moves(s: StateModel, ctx: MatchCtx, ids: Seq<u128>, sequence: i32, acc: Seq<LedgerIntent>)
    ensures
        spec_match(s, ctx, ids, sequence, acc) matches Run::Done(s2, (acc2, _)) ==> {
            &&& acc2.len() >= acc.len()
            &&& acc2.take(acc.len() as int) == acc
            &&& moved_by(s.balances, s2.balances, acc2.skip(acc.len() as int))
        },
    decreases match_measure(s, ctx),
{
    lemma_match_step_moves(s, ctx, head_id(ids), sequence);
    match spec_match_step(s, ctx, head_id(ids), sequence) {
        Run::Done(s1, None) => {
            lemma_moved_refl(s.balances);
            assert(acc.skip(acc.len() as int) =~= Seq::<LedgerIntent>::empty());
            assert(acc.take(acc.len() as int) =~= acc);
        },
        Run::Done(s1, Some((its, q))) => {
            lemma_match_step_decreases(s, ctx, head_id(ids), sequence);
            lemma_match_moves(s1, ctx, tail_ids(ids), q, acc + its);
            if let Run::Done(s2, (acc2, _)) = spec_match(s1, ctx, tail_ids(ids), q, acc + its) {
                let rest = acc2.skip((acc + its).len() as int);
                lemma_moved_trans(s.balances, s1.balances, s2.balances, its, rest);
                assert(acc2.take(acc.len() as int) =~= (acc + its).take(acc.len() as int));
                assert((acc + its).take(acc.len() as int) =~= acc);
                assert(acc2.skip(acc.len() as int) =~= its + rest) by {
                    assert(acc2 =~= (acc + its) + rest);
                }
            }
        },
        _ => {},
    }
}

/// Placing an order moves the balances by the intents it returns.
pub proof fn lemma_create_moves(
    s: StateModel,
    command_id: u128,
    user: u128,
    symbol: Seq<char>,
    t: crate::types::OrderType,
    price: i64,
    qty: i64,
    now: i64,
    ids: Seq<u128>,
)
    ensures
        spec_create_order(s, command_id, user, symbol, t, price, qty, now, ids) matches Run::Done(s2, its) ==> moved_by(s.balances, s2.balances, its),
{
    if let Run::Done(s4, its) = spec_create_order(s, command_id, user, symbol, t, price, qty, now, ids) {
        let m = s.markets[crate::memory::market_index(s.markets, symbol).unwrap()];
        let dec = s.assets[crate::memory::asset_index(s.assets, m.base_asset_id).unwrap()].decimals;
        let notional = crate::helper::quote_notional::spec_quote_notional(price, qty, dec).unwrap();
        assert(price * qty > 0) by (nonlinear_arith)
            requires
                price > 0,
                qty > 0,
        ;
        crate::helper::quote_notional::lemma_pow10_positive(dec as nat);
        assert(notional >= 0);
        let (ra, ramt) = match t {
            crate::types::OrderType::Buy => (m.quote_asset_id, notional),
            crate::types::OrderType::Sell => (m.base_asset_id, qty),
        };
        lemma_found_row(s.balances, user, ra);
        let bi = balance_index(s.balances, user, ra).unwrap();
        let b = s.balances[bi];
        let nb = Balance { available: (b.available - ramt) as i64, locked: (b.locked + ramt) as i64, updated_at: now, ..b };
        let lock = lock_intent(command_id, nb, ramt);
        lemma_single_move(s.balances, bi, nb, lock);
        let id = s.next_order_id;
        let s1 = with_balance(s, bi, nb);
        let s2 = StateModel { orders: orders_with(s1.orders, new_order(id, user, symbol, t, price, qty, now)), next_order_id: (id + 1) as u64, ..s1 };
        let ctx = crate::helper::match_order::match_ctx(id, m.id, symbol, m.base_asset_id, m.quote_asset_id, dec, command_id, now);
        lemma_match_moves(s2, ctx, ids, 1, Seq::empty());
        let s3 = spec_match(s2, ctx, ids, 1, Seq::empty())->Done_0;
        let mits = spec_match(s2, ctx, ids, 1, Seq::empty())->Done_1.0;
        assert(mits.skip(0) =~= mits);
        lemma_moved_trans(s.balances, s2.balances, s3.balances, seq![lock], mits);
        assert(s4.balances == s3.balances);
    }
}

/// Cancelling an order moves the balances by its unlock intent.
pub proof fn lemma_cancel_moves(s: StateModel, command_id: u128, user: u128, order_id: Seq<char>, now: i64)
    ensures
        spec_cancel_order(s, command_id, user, order_id, now) matches Run::Done(s2, its) ==> moved_by(s.balances, s2.balances, its),
{
    if let Run::Done(s3, its) = spec_cancel_order(s, command_id, user, order_id, now) {
        let id = crate::helper::order_id::spec_parse_order_id(order_id).unwrap();
        let oi = crate::memory::order_index(s.orders, id).unwrap();
        let o = s.orders[oi];
        let m = s.markets[crate::memory::market_index(s.markets, o.market_symbol).unwrap()];
        let dec = s.assets[crate::memory::asset_index(s.assets, m.base_asset_id).unwrap()].decimals;
        let (asset, amount) = reserved_by(o, m.base_asset_id, m.quote_asset_id, dec).unwrap();
        lemma_found_row(s.balances, o.user_id, asset);
        let bi = balance_index(s.balances, o.user_id, asset).unwrap();
        let b = s.balances[bi];
        let nb = Balance { locked: (b.locked - amount) as i64, available: (b.available + amount) as i64, updated_at: now, ..b };
        lemma_single_move(s.balances, bi, nb, unlock_intent(command_id, nb, amount));
    }
}

/// Ledger accounting: whenever a command is applied, the amounts of every
/// balance move by exactly the deltas of the intents it returns, every
/// balance row survives, and every intent names an existing balance; a
/// command that was already processed changes nothing.
pub proof fn law_intents_account_for_balances(s: StateModel, cmd: CommandModel, now: i64, ids: Seq<u128>)
    ensures
        spec_apply_command_effects(s, cmd, now, ids) matches Run::Done(s2, OutcomeModel::Applied { intents, .. })
            ==> moved_by(s.balances, s2.balances, intents),
        spec_apply_command_effects(s, cmd, now, ids) matches Run::Done(s2, OutcomeModel::AlreadyProcessed) ==> s2 == s,
{
    if !s.is_processed(cmd.command_id()) {
        match cmd {
            CommandModel::CreateOrder { command_id, user_id, market_symbol, order_type, price, quantity } =>
                lemma_create_moves(s, command_id, user_id, market_symbol, order_type, price, quantity, now, ids),
            CommandModel::CancelOrder { command_id, user_id, order_id } =>
                lemma_cancel_moves(s, command_id, user_id, order_id, now),
            CommandModel::CreditBalance { command_id, user_id, asset_id, amount } =>
                lemma_credit_moves(s, command_id, user_id, asset_id, amount, now),
        }
    }
}

/// Undoing intents on balances that hold their keys takes their deltas back.
pub proof fn lemma_revert_amounts(bs: Seq<Balance>, its: Seq<LedgerIntent>)
    requires
        forall|k: int| 0 <= k < its.len() ==> #[trigger] has_row(bs, its[k].user_id, its[k].asset_id),
        spec_revert_intents(bs, its) is Some,
    ensures
        ({
            let r = spec_revert_intents(bs, its).unwrap();
            &&& forall|u: u128, a: u128| #[trigger] avail_of(r, u, a) == avail_of(bs, u, a) - avail_delta(its, u, a)
            &&& forall|u: u128, a: u128| #[trigger] locked_of(r, u, a) == locked_of(bs, u, a) - locked_delta(its, u, a)
            &&& forall|u: u128, a: u128| #[trigger] has_row(r, u, a) == has_row(bs, u, a)
        }),
    decreases its.len(),
{
    if its.len() > 0 {
        let init = its.drop_last();
        assert forall|k: int| 0 <= k < init.len() implies #[trigger] has_row(bs, init[k].user_id, init[k].asset_id) by {
            assert(init[k] == its[k]);
        }
        lemma_revert_amounts(bs, init);
        let b1 = spec_revert_intents(bs, init).unwrap();
        let it = its.last();
        assert(has_row(bs, its[its.len() - 1].user_id, its[its.len() - 1].asset_id));
        assert(has_row(b1, it.user_id, it.asset_id));
        lemma_found_row(b1, it.user_id, it.asset_id);
        let i = balance_index(b1, it.user_id, it.asset_id).unwrap();
        let b = b1[i];
        let nb = Balance {
            available: (b.available - it.available_delta) as i64,
            locked: (b.locked - it.locked_delta) as i64,
            ..b
        };
        lemma_update_row(b1, i, nb);
        let r = b1.update(i, nb);
        assert(spec_revert_intents(bs, its) == Some(r));
        assert forall|u: u128, a: u128| #[trigger] avail_of(r, u, a) == avail_of(bs, u, a) - avail_delta(its, u, a) by {
            assert(avail_delta(its, u, a) == avail_delta(init, u, a) + if it.user_id == u && it.asset_id == a {
                it.available_delta as int
            } else {
                0
            });
            assert(avail_of(b1, u, a) == avail_of(bs, u, a) - avail_delta(init, u, a));
        }
        assert forall|u: u128, a: u128| #[trigger] locked_of(r, u, a) == locked_of(bs, u, a) - locked_delta(its, u, a) by {
            assert(locked_delta(its, u, a) == locked_delta(init, u, a) + if it.user_id == u && it.asset_id == a {
                it.locked_delta as int
            } else {
                0
            });
            assert(locked_of(b1, u, a) == locked_of(bs, u, a) - locked_delta(init, u, a));
        }
        assert forall|u: u128, a: u128| #[trigger] has_row(r, u, a) == has_row(bs, u, a) by {
            assert(has_row(b1, u, a) == has_row(bs, u, a));
        }
    } else {
        assert forall|u: u128, a: u128| #[trigger] avail_of(bs, u, a) == avail_of(bs, u, a) - avail_delta(its, u, a) by {}
        assert forall|u: u128, a: u128| #[trigger] locked_of(bs, u, a) == locked_of(bs, u, a) - locked_delta(its, u, a) by {}
    }
}

/// Undoing what was applied: when the intents of a command cannot be
/// persisted and are reverted, every balance amount is back to what it was
/// before the command (balance rows the command created stay, at zero).
pub proof fn law_revert_restores_balances(before: Seq<Balance>, after: Seq<Balance>, its: Seq<LedgerIntent>)
    requires
        moved_by(before, after, its),
        spec_revert_intents(after, its) is Some,
    ensures
        forall|u: u128, a: u128| #[trigger] avail_of(spec_revert_intents(after, its).unwrap(), u, a) == avail_of(before, u, a),
        forall|u: u128, a: u128| #[trigger] locked_of(spec_revert_intents(after, its).unwrap(), u, a) == locked_of(before, u, a),
{
    lemma_revert_amounts(after, its);
}

/// Idempotence: once a command has been applied and committed, applying it
/// again changes nothing and reports it as already processed.
pub proof fn law_applying_twice_is_applying_once(s: StateModel, cmd: CommandModel, now1: i64, ids1: Seq<u128>, now2: i64, ids2: Seq<u128>)
    ensures
        spec_apply_command_effects(s, cmd, now1, ids1) matches Run::Done(s1, OutcomeModel::Applied { command_id, .. }) ==>
            spec_apply_command_effects(spec_commit_command(s1, command_id), cmd, now2, ids2)
                == Run::<OutcomeModel>::Done(spec_commit_command(s1, command_id), OutcomeModel::AlreadyProcessed),
{
    if let Run::Done(s1, OutcomeModel::Applied { command_id, .. }) = spec_apply_command_effects(s, cmd, now1, ids1) {
        assert(command_id == cmd.command_id());
        let s2 = spec_commit_command(s1, command_id);
        if !s1.processed_commands.contains(command_id) {
            assert(s2.processed_commands.last() == command_id);
        }
        assert(s2.is_processed(cmd.command_id()));
    }
}

/// Net change of an asset's total (available plus locked) over intents.
pub open spec fn asset_net(its: Seq<LedgerIntent>, asset: u128) -> int
    decreases its.len(),
{
    if its.len() == 0 {
        0
    } else {
        asset_net(its.drop_last(), asset) + if its.last().asset_id == asset {
            its.last().available_delta + its.last().locked_delta
        } else {
            0
        }
    }
}

pub proof fn lemma_asset_net_append(x: Seq<LedgerIntent>, y: Seq<LedgerIntent>, asset: u128)
    ensures
        asset_net(x + y, asset) == asset_net(x, asset) + asset_net(y, asset),
    decreases y.len(),
{
    if y.len() == 0 {
        assert(x + y =~= x);
    } else {
        lemma_asset_net_append(x, y.drop_last(), asset);
        assert((x + y).drop_last() =~= x + y.drop_last());
    }
}

pub proof fn lemma_asset_net_single(it: LedgerIntent, asset: u128)
    ensures
        asset_net(seq![it], asset) == if it.asset_id == asset { it.available_delta + it.locked_delta } else { 0 },
{
    assert(seq![it].drop_last() =~= Seq::<LedgerIntent>::empty());
    assert(asset_net(Seq::<LedgerIntent>::empty(), asset) == 0);
}

/// The four intents of a settled fill cancel out in every asset.
pub proof fn lemma_settle_net_zero(
    s: StateModel,
    command_id: u128,
    sequence: i32,
    trade_id: u128,
    buyer: u128,
    seller: u128,
    buyer_price: i64,
    trade_price: i64,
    qty: i64,
    base: u128,
    quote: u128,
    base_decimals: i32,
    now: i64,
    asset: u128,
)
    ensures
        crate::helper::settle::spec_settle_fill(s, command_id, sequence, trade_id, buyer, seller, buyer_price, trade_price, qty,
            base, quote, base_decimals, now) matches Run::Done(_, (its, _)) ==> asset_net(its, asset) == 0,
{
    if let Run::Done(_, (its, _)) = crate::helper::settle::spec_settle_fill(s, command_id, sequence, trade_id, buyer, seller,
        buyer_price, trade_price, qty, base, quote, base_decimals, now) {
        let a = its[0];
        let b = its[1];
        let c = its[2];
        let d = its[3];
        assert(its =~= seq![a] + seq![b] + seq![c] + seq![d]);
        lemma_asset_net_append(seq![a] + seq![b] + seq![c], seq![d], asset);
        lemma_asset_net_append(seq![a] + seq![b], seq![c], asset);
        lemma_asset_net_append(seq![a], seq![b], asset);
        lemma_asset_net_single(a, asset);
        lemma_asset_net_single(b, asset);
        lemma_asset_net_single(c, asset);
        lemma_asset_net_single(d, asset);
    }
}

/// Matching's intents cancel out in every asset.
pub proof fn lemma_match_net_zero(s: StateModel, ctx: MatchCtx, ids: Seq<u128>, sequence: i32, acc: Seq<LedgerIntent>, asset: u128)
    ensures
        spec_match(s, ctx, ids, sequence, acc) matches Run::Done(_, (acc2, _)) ==> asset_net(acc2, asset) == asset_net(acc, asset),
    decreases match_measure(s, ctx),
{
    reveal(spec_match_step);
    match spec_match_step(s, ctx, head_id(ids), sequence) {
        Run::Done(s1, Some((its, q))) => {
            lemma_match_step_decreases(s, ctx, head_id(ids), sequence);
            lemma_match_net_zero(s1, ctx, tail_ids(ids), q, acc + its, asset);
            lemma_asset_net_append(acc, its, asset);
            if let Run::Done(s1b, Some(f)) = spec_take_next_fill(s, ctx.taker_id, ctx.symbol) {
                let t = s1b.order(ctx.taker_id).unwrap();
                let (buyer, seller, bp) = fill_parties(s1b, t, f).unwrap();
                lemma_settle_net_zero(s1b, ctx.command_id, sequence, head_id(ids), buyer, seller, bp, f.maker_price, f.fill_qty,
                    ctx.base, ctx.quote, ctx.base_decimals, ctx.now, asset);
            }
        },
        _ => {},
    }
}

/// Conservation: placing or cancelling an order only moves funds between
/// available and locked and between the two sides of a trade; its intents
/// net to zero in every asset.
pub proof fn law_orders_conserve_assets(s: StateModel, cmd: CommandModel, now: i64, ids: Seq<u128>, asset: u128)
    requires
        !(cmd is CreditBalance),
    ensures
        spec_apply_command_effects(s, cmd, now, ids) matches Run::Done(_, OutcomeModel::Applied { intents, .. })
            ==> asset_net(intents, asset) == 0,
{
    if !s.is_processed(cmd.command_id()) {
        match cmd {
            CommandModel::CreateOrder { command_id, user_id, market_symbol, order_type, price, quantity } => {
                if let Run::Done(_, its) = spec_create_order(s, command_id, user_id, market_symbol, order_type, price, quantity, now, ids) {
                    let m = s.markets[crate::memory::market_index(s.markets, market_symbol).unwrap()];
                    let dec = s.assets[crate::memory::asset_index(s.assets, m.base_asset_id).unwrap()].decimals;
                    let notional = crate::helper::quote_notional::spec_quote_notional(price, quantity, dec).unwrap();
                    assert(price * quantity > 0) by (nonlinear_arith)
                        requires
                            price > 0,
                            quantity > 0,
                    ;
                    crate::helper::quote_notional::lemma_pow10_positive(dec as nat);
                    let ra = match order_type {
                        crate::types::OrderType::Buy => m.quote_asset_id,
                        crate::types::OrderType::Sell => m.base_asset_id,
                    };
                    let bi = balance_index(s.balances, user_id, ra).unwrap();
                    let id = s.next_order_id;
                    let ramt = match order_type {
                        crate::types::OrderType::Buy => notional,
                        crate::types::OrderType::Sell => quantity,
                    };
                    let b = s.balances[bi];
                    let nb = Balance { available: (b.available - ramt) as i64, locked: (b.locked + ramt) as i64, updated_at: now, ..b };
                    let s1 = with_balance(s, bi, nb);
                    let s2 = StateModel { orders: orders_with(s1.orders, new_order(id, user_id, market_symbol, order_type, price, quantity, now)), next_order_id: (id + 1) as u64, ..s1 };
                    let ctx = crate::helper::match_order::match_ctx(id, m.id, market_symbol, m.base_asset_id, m.quote_asset_id, dec, command_id, now);
                    lemma_match_net_zero(s2, ctx, ids, 1, Seq::empty(), asset);
                    let mits = spec_match(s2, ctx, ids, 1, Seq::empty())->Done_1.0;
                    let lock = lock_intent(command_id, nb, ramt);
                    lemma_asset_net_append(seq![lock], mits, asset);
                    lemma_asset_net_single(lock, asset);
                    assert(asset_net(Seq::<LedgerIntent>::empty(), asset) == 0);
                }
            },
            CommandModel::CancelOrder { command_id, user_id, order_id } => {
                if let Run::Done(_, its) = spec_cancel_order(s, command_id, user_id, order_id, now) {
                    lemma_asset_net_single(its[0], asset);
                    assert(its =~= seq![its[0]]);
                }
            },
            CommandModel::CreditBalance { .. } => {},
        }
    }
}

/// A fill found for a taker is at a resting price that crosses its limit.
pub proof fn lemma_next_fill_crosses(side: Seq<crate::types::LevelModel>, taker: OrderType, taker_price: i64, remaining: i64, user: u128)
    ensures
        next_fill_side(side, taker, taker_price, remaining, user).1 matches Some(f) ==> crosses(taker, f.maker_price, taker_price),
    decreases side.len(),
{
    if side.len() > 0 {
        let bi = best_position(side, taker);
        let level = side[bi];
        if crosses(taker, level.price, taker_price) && level.orders.len() == 0 {
            lemma_next_fill_crosses(side.remove(bi), taker, taker_price, remaining, user);
        }
    }
}

/// The side and limit price of order `id`, if there is one.
pub open spec fn order_terms(s: StateModel, id: u64) -> Option<(OrderType, i64)> {
    match s.order(id) {
        Some(o) => Some((o.order_type, o.price)),
        None => None,
    }
}

/// Filling an order keeps the side and limit of every order.
pub proof fn lemma_apply_fill_keeps_terms(s: StateModel, order_id: u64, qty: i64, now: i64, id: u64)
    ensures
        spec_apply_fill(s, order_id, qty, now) matches Run::Done(s2, _) ==> order_terms(s2, id) == order_terms(s, id)
            && s2.trades == s.trades,
{
    lemma_apply_fill_keeps_ids(s, order_id, qty, now, id);
}

/// One round of matching keeps the taker's side and limit, and the trade it
/// records (if any) is at a price crossing that limit.
pub proof fn lemma_match_step_limit(s: StateModel, ctx: MatchCtx, trade_id: u128, sequence: i32)
    ensures
        spec_match_step(s, ctx, trade_id, sequence) matches Run::Done(s1, None) ==> s1.trades == s.trades
            && order_terms(s1, ctx.taker_id) == order_terms(s, ctx.taker_id),
        spec_match_step(s, ctx, trade_id, sequence) matches Run::Done(s1, Some(_)) ==> {
            &&& order_terms(s, ctx.taker_id) is Some
            &&& order_terms(s1, ctx.taker_id) == order_terms(s, ctx.taker_id)
            &&& s1.trades.len() == s.trades.len() + 1
            &&& s1.trades.drop_last() == s.trades
            &&& crosses(order_terms(s, ctx.taker_id).unwrap().0, s1.trades.last().price, order_terms(s, ctx.taker_id).unwrap().1)
        },
{
    reveal(spec_match_step);
    match spec_take_next_fill(s, ctx.taker_id, ctx.symbol) {
        Run::Done(s1, f) => {
            let t = s.order(ctx.taker_id).unwrap();
            assert(s1.orders == s.orders);
            assert(s1.trades == s.trades);
            if t.remaining() > 0 {
                let (sb, bi) = with_book(s, ctx.symbol);
                let mb = sb.books[bi];
                let side = opposite_side(mb.book, t.order_type);
                lemma_next_fill_crosses(side, t.order_type, t.price, t.remaining() as i64, t.user_id);
            }
            if let Some(f) = f {
                if let Run::Done(s5, _) = spec_fill_rest(s1, ctx, f, trade_id, sequence) {
                    let (buyer, seller, bp) = fill_parties(s1, t, f).unwrap();
                    lemma_settle_balances_only(s1, ctx.command_id, sequence, trade_id, buyer, seller, bp, f.maker_price, f.fill_qty,
                        ctx.base, ctx.quote, ctx.base_decimals, ctx.now);
                    let s2 = crate::helper::settle::spec_settle_fill(s1, ctx.command_id, sequence, trade_id, buyer, seller, bp,
                        f.maker_price, f.fill_qty, ctx.base, ctx.quote, ctx.base_decimals, ctx.now)->Done_0;
                    lemma_apply_fill_keeps_terms(s2, f.maker_order_id, f.fill_qty, ctx.now, ctx.taker_id);
                    let s3 = spec_apply_fill(s2, f.maker_order_id, f.fill_qty, ctx.now)->Done_0;
                    lemma_apply_fill_keeps_terms(s3, ctx.taker_id, f.fill_qty, ctx.now, ctx.taker_id);
                    let s4 = spec_apply_fill(s3, ctx.taker_id, f.fill_qty, ctx.now)->Done_0;
                    assert(s5.trades == s4.trades.push(fill_trade(ctx, f, trade_id, buyer, seller)));
                    assert(s5.trades.drop_last() =~= s.trades);
                }
            }
        },
        _ => {},
    }
}

/// Matching keeps the taker's side and limit, keeps the trades it was
/// given, and every trade it adds is at a price crossing the limit.
pub proof fn lemma_match_limit(s: StateModel, ctx: MatchCtx, ids: Seq<u128>, sequence: i32, acc: Seq<LedgerIntent>)
    ensures
        spec_match(s, ctx, ids, sequence, acc) matches Run::Done(s2, _) ==> {
            &&& order_terms(s2, ctx.taker_id) == order_terms(s, ctx.taker_id)
            &&& s2.trades.len() >= s.trades.len()
            &&& s2.trades.take(s.trades.len() as int) == s.trades
            &&& (s2.trades.len() > s.trades.len() ==> order_terms(s, ctx.taker_id) is Some)
            &&& forall|i: int| s.trades.len() <= i < s2.trades.len() ==> crosses(
                order_terms(s, ctx.taker_id).unwrap().0, #[trigger] s2.trades[i].price, order_terms(s, ctx.taker_id).unwrap().1)
        },
    decreases match_measure(s, ctx),
{
    lemma_match_step_limit(s, ctx, head_id(ids), sequence);
    match spec_match_step(s, ctx, head_id(ids), sequence) {
        Run::Done(s1, None) => {
            assert(s1.trades.take(s.trades.len() as int) =~= s.trades);
        },
        Run::Done(s1, Some((its, q))) => {
            lemma_match_step_decreases(s, ctx, head_id(ids), sequence);
            lemma_match_limit(s1, ctx, tail_ids(ids), q, acc + its);
            if let Run::Done(s2, _) = spec_match(s1, ctx, tail_ids(ids), q, acc + its) {
                let n = s.trades.len() as int;
                assert(s2.trades.take(n) =~= s2.trades.take(n + 1).take(n));
                assert(s2.trades.take(n + 1) == s1.trades);
                assert(s1.trades.take(n) =~= s.trades);
                assert forall|i: int| n <= i < s2.trades.len() implies crosses(
                    order_terms(s, ctx.taker_id).unwrap().0, #[trigger] s2.trades[i].price, order_terms(s, ctx.taker_id).unwrap().1) by {
                    if i == n {
                        assert(s2.trades[i] == s1.trades[n]);
                    }
                }
            }
        },
        _ => {},
    }
}

/// Limit prices hold: a new order keeps the trades made before it, and
/// every trade it makes is at a resting order's price no worse than its
/// limit (at or below it for a buy, at or above it for a sell).
pub proof fn law_trades_respect_limits(s: StateModel, cmd: CommandModel, now: i64, ids: Seq<u128>)
    requires
        cmd is CreateOrder,
    ensures
        spec_apply_command_effects(s, cmd, now, ids) matches Run::Done(s2, OutcomeModel::Applied { .. }) ==> {
            &&& s2.trades.len() >= s.trades.len()
            &&& s2.trades.take(s.trades.len() as int) == s.trades
            &&& cmd matches CommandModel::CreateOrder { order_type, price, .. } && forall|i: int|
                s.trades.len() <= i < s2.trades.len() ==> crosses(order_type, #[trigger] s2.trades[i].price, price)
        },
{
    if !s.is_processed(cmd.command_id()) {
        if let CommandModel::CreateOrder { command_id, user_id, market_symbol, order_type, price, quantity } = cmd {
            lemma_create_limit(s, command_id, user_id, market_symbol, order_type, price, quantity, now, ids);
        }
    } else {
        assert(s.trades.take(s.trades.len() as int) =~= s.trades);
    }
}

proof fn lemma_create_limit(
    s: StateModel,
    command_id: u128,
    user: u128,
    symbol: Seq<char>,
    t: OrderType,
    price: i64,
    qty: i64,
    now: i64,
    ids: Seq<u128>,
)
    ensures
        spec_create_order(s, command_id, user, symbol, t, price, qty, now, ids) matches Run::Done(s2, _) ==> {
            &&& s2.trades.len() >= s.trades.len()
            &&& s2.trades.take(s.trades.len() as int) == s.trades
            &&& forall|i: int| s.trades.len() <= i < s2.trades.len() ==> crosses(t, #[trigger] s2.trades[i].price, price)
        },
{
    if let Run::Done(sf, _) = spec_create_order(s, command_id, user, symbol, t, price, qty, now, ids) {
        let m = s.markets[crate::memory::market_index(s.markets, symbol).unwrap()];
        let dec = s.assets[crate::memory::asset_index(s.assets, m.base_asset_id).unwrap()].decimals;
        let (ra, ramt) = match t {
            OrderType::Buy => (m.quote_asset_id, spec_quote_notional_ok(s, symbol, price, qty)),
            OrderType::Sell => (m.base_asset_id, qty),
        };
        let bi = balance_index(s.balances, user, ra).unwrap();
        let b = s.balances[bi];
        let nb = Balance { available: (b.available - ramt) as i64, locked: (b.locked + ramt) as i64, updated_at: now, ..b };
        let id = s.next_order_id;
        let s1 = with_balance(s, bi, nb);
        let o = new_order(id, user, symbol, t, price, qty, now);
        let s2 = StateModel { orders: orders_with(s1.orders, o), next_order_id: (id + 1) as u64, ..s1 };
        let ctx = match_ctx(id, m.id, symbol, m.base_asset_id, m.quote_asset_id, dec, command_id, now);
        lemma_orders_with_order(s1.orders, o);
        assert(order_terms(s2, id) == Some((t, price)));
        lemma_match_limit(s2, ctx, ids, 1, Seq::empty());
        if let Run::Done(s3, _) = spec_match(s2, ctx, ids, 1, Seq::empty()) {
            assert(sf.trades == s3.trades);
        }
    }
}

/// The notional a buy reserves, as `spec_create_order` computes it.
pub open spec fn spec_quote_notional_ok(s: StateModel, symbol: Seq<char>, price: i64, qty: i64) -> i64 {
    let m = s.markets[crate::memory::market_index(s.markets, symbol).unwrap()];
    let dec = s.assets[crate::memory::asset_index(s.assets, m.base_asset_id).unwrap()].decimals;
    crate::helper::quote_notional::spec_quote_notional(price, qty, dec).unwrap()
}

/// The order stored under an id is the one given.
pub proof fn lemma_orders_with_order(os: Seq<OrderModel>, o: OrderModel)
    ensures
        order_index(orders_with(os, o), o.id) matches Some(i) && orders_with(os, o)[i] == o,
{
    let p = |x: OrderModel| x.id == o.id;
    match order_index(os, o.id) {
        Some(i) => {
            crate::memory::lemma_first_index_range(os, p);
            lemma_first_index_update(os, p, i, o);
        },
        None => {
            lemma_first_index_push(os, p, o);
        },
    }
}

/// A round of matching never touches the processed command ids.
pub proof fn lemma_match_step_keeps_processed(s: StateModel, ctx: MatchCtx, trade_id: u128, sequence: i32)
    ensures
        spec_match_step(s, ctx, trade_id, sequence) matches Run::Done(s1, _) ==> s1.processed_commands == s.processed_commands,
        spec_match_step(s, ctx, trade_id, sequence) matches Run::Failed(s1, _) ==> s1.processed_commands == s.processed_commands,
{
    reveal(spec_match_step);
    if let Run::Done(s1, Some(f)) = spec_take_next_fill(s, ctx.taker_id, ctx.symbol) {
        if let Some(t) = s1.order(ctx.taker_id) {
            if let Some((buyer, seller, bp)) = fill_parties(s1, t, f) {
                lemma_settle_balances_only(s1, ctx.command_id, sequence, trade_id, buyer, seller, bp, f.maker_price, f.fill_qty,
                    ctx.base, ctx.quote, ctx.base_decimals, ctx.now);
            }
        }
    }
}

/// Matching never touches the processed command ids.
pub proof fn lemma_match_keeps_processed(s: StateModel, ctx: MatchCtx, ids: Seq<u128>, sequence: i32, acc: Seq<LedgerIntent>)
    ensures
        spec_match(s, ctx, ids, sequence, acc) matches Run::Done(s2, _) ==> s2.processed_commands == s.processed_commands,
        spec_match(s, ctx, ids, sequence, acc) matches Run::Failed(s2, _) ==> s2.processed_commands == s.processed_commands,
    decreases match_measure(s, ctx),
{
    lemma_match_step_keeps_processed(s, ctx, head_id(ids), sequence);
    if let Run::Done(s1, Some((its, q))) = spec_match_step(s, ctx, head_id(ids), sequence) {
        lemma_match_step_decreases(s, ctx, head_id(ids), sequence);
        lemma_match_keeps_processed(s1, ctx, tail_ids(ids), q, acc + its);
    }
}

/// Placing an order, whether it succeeds or fails part-way, never touches
/// the processed command ids.
pub proof fn lemma_create_keeps_processed(
    s: StateModel,
    command_id: u128,
    user: u128,
    symbol: Seq<char>,
    t: OrderType,
    price: i64,
    qty: i64,
    now: i64,
    ids: Seq<u128>,
)
    ensures
        spec_create_order(s, command_id, user, symbol, t, price, qty, now, ids) matches Run::Done(sf, _)
            ==> sf.processed_commands == s.processed_commands,
        spec_create_order(s, command_id, user, symbol, t, price, qty, now, ids) matches Run::Failed(sf, _)
            ==> sf.processed_commands == s.processed_commands,
{
    let m = s.markets[crate::memory::market_index(s.markets, symbol).unwrap()];
    let dec = s.assets[crate::memory::asset_index(s.assets, m.base_asset_id).unwrap()].decimals;
    let (ra, ramt) = match t {
        OrderType::Buy => (m.quote_asset_id, spec_quote_notional_ok(s, symbol, price, qty)),
        OrderType::Sell => (m.base_asset_id, qty),
    };
    let bi = balance_index(s.balances, user, ra).unwrap();
    let b = s.balances[bi];
    let nb = Balance { available: (b.available - ramt) as i64, locked: (b.locked + ramt) as i64, updated_at: now, ..b };
    let id = s.next_order_id;
    let s1 = with_balance(s, bi, nb);
    let o = new_order(id, user, symbol, t, price, qty, now);
    let s2 = StateModel { orders: orders_with(s1.orders, o), next_order_id: (id + 1) as u64, ..s1 };
    let ctx = match_ctx(id, m.id, symbol, m.base_asset_id, m.quote_asset_id, dec, command_id, now);
    lemma_match_keeps_processed(s2, ctx, ids, 1, Seq::empty());
}

/// Idempotence by command id, for `apply_command`: a command already
/// processed is answered `Ok` and changes nothing; one that succeeds ends
/// processed, so applying it again is answered `Ok` and changes nothing;
/// one that fails leaves the processed ids as they were, so a retry applies
/// it anew.
pub proof fn law_apply_command_idempotent(s: StateModel, cmd: CommandModel, now1: i64, ids1: Seq<u128>, now2: i64, ids2: Seq<u128>)
    ensures
        s.is_processed(cmd.command_id()) ==> spec_apply_command(s, cmd, now1, ids1) == Some((s, Ok::<(), ApplyError>(()))),
        spec_apply_command(s, cmd, now1, ids1) matches Some((s1, Ok(_))) ==> s1.is_processed(cmd.command_id())
            && spec_apply_command(s1, cmd, now2, ids2) == Some((s1, Ok::<(), ApplyError>(()))),
        spec_apply_command(s, cmd, now1, ids1) matches Some((s1, Err(_))) ==> !s.is_processed(cmd.command_id())
            && s1.processed_commands == s.processed_commands,
{
    if !s.is_processed(cmd.command_id()) {
        match cmd {
            CommandModel::CreateOrder { command_id, user_id, market_symbol, order_type, price, quantity } =>
                lemma_create_keeps_processed(s, command_id, user_id, market_symbol, order_type, price, quantity, now1, ids1),
            _ => {},
        }
    }
    if let Some((s1, Ok(_))) = spec_apply_command(s, cmd, now1, ids1) {
        if let Run::Done(sa, OutcomeModel::Applied { command_id, .. }) = spec_apply_command_effects(s, cmd, now1, ids1) {
            assert(command_id == cmd.command_id());
            if !sa.processed_commands.contains(command_id) {
                assert(s1.processed_commands.last() == command_id);
            }
        }
        assert(s1.is_processed(cmd.command_id()));
    }
}

/// `after` holds every balance amount of `before` (zero where `before` has
/// no row) and every balance row of `before`.
pub open spec fn restores(before: Seq<Balance>, after: Seq<Balance>) -> bool {
    &&& forall|u: u128, a: u128| #[trigger] avail_of(after, u, a) == avail_of(before, u, a)
    &&& forall|u: u128, a: u128| #[trigger] locked_of(after, u, a) == locked_of(before, u, a)
    &&& forall|u: u128, a: u128| has_row(before, u, a) ==> #[trigger] has_row(after, u, a)
}

/// Undoing a command whose intents could not be persisted: where taking
/// the intents back stays within the `i64` range, every balance amount is
/// back to what it was before the command (so a balance row the command
/// created holds zero), and no balance row is lost.
pub proof fn law_revert_undoes_command(s: StateModel, cmd: CommandModel, now: i64, ids: Seq<u128>)
    ensures
        spec_apply_command_effects(s, cmd, now, ids) matches Run::Done(s2, OutcomeModel::Applied { intents, .. })
            ==> (spec_revert_intents(s2.balances, intents) is Some
            ==> restores(s.balances, spec_revert_intents(s2.balances, intents).unwrap())),
{
    law_intents_account_for_balances(s, cmd, now, ids);
    if let Run::Done(s2, OutcomeModel::Applied { intents, .. }) = spec_apply_command_effects(s, cmd, now, ids) {
        if spec_revert_intents(s2.balances, intents) is Some {
            lemma_revert_amounts(s2.balances, intents);
        }
    }
}

/// Undoing a single intent on the balances it moved never leaves the `i64`
/// range: it gives every amount back its value from before.
pub proof fn lemma_revert_single_fits(before: Seq<Balance>, after: Seq<Balance>, it: LedgerIntent)
    requires
        moved_by(before, after, seq![it]),
    ensures
        spec_revert_intents(after, seq![it]) is Some,
{
    let its = seq![it];
    assert(has_row(after, its[0].user_id, its[0].asset_id));
    lemma_found_row(after, it.user_id, it.asset_id);
    lemma_delta_single(it, it.user_id, it.asset_id);
    let i = balance_index(after, it.user_id, it.asset_id).unwrap();
    assert(avail_of(after, it.user_id, it.asset_id) == avail_of(before, it.user_id, it.asset_id) + avail_delta(its, it.user_id, it.asset_id));
    assert(locked_of(after, it.user_id, it.asset_id) == locked_of(before, it.user_id, it.asset_id) + locked_delta(its, it.user_id, it.asset_id));
    lemma_found_row(before, it.user_id, it.asset_id);
    assert(its.drop_last() =~= Seq::<LedgerIntent>::empty());
    assert(spec_revert_intents(after, its.drop_last()) == Some(after));
    assert(its.last() == it);
    assert(fits_i64(avail_of(before, it.user_id, it.asset_id)));
    assert(fits_i64(locked_of(before, it.user_id, it.asset_id)));
    assert(after[i].available - it.available_delta == avail_of(before, it.user_id, it.asset_id));
    assert(after[i].locked - it.locked_delta == locked_of(before, it.user_id, it.asset_id));
    assert(revert_one(after, it) is Some);
}

/// A credit that was applied can always be undone: its single deposit
/// intent is taken back within the `i64` range.
pub proof fn law_credit_revert_fits(s: StateModel, cmd: CommandModel, now: i64, ids: Seq<u128>)
    requires
        cmd is CreditBalance,
    ensures
        spec_apply_command_effects(s, cmd, now, ids) matches Run::Done(s2, OutcomeModel::Applied { intents, .. })
            ==> spec_revert_intents(s2.balances, intents) is Some,
{
    law_intents_account_for_balances(s, cmd, now, ids);
    if let Run::Done(s2, OutcomeModel::Applied { intents, .. }) = spec_apply_command_effects(s, cmd, now, ids) {
        assert(intents =~= seq![intents[0]]);
        lemma_revert_single_fits(s.balances, s2.balances, intents[0]);
    }
}

/// The total of `asset` (available plus locked) held by the users of
/// `users`.
pub open spec fn asset_total(bs: Seq<Balance>, asset: u128, users: Seq<u128>) -> int
    decreases users.len(),
{
    if users.len() == 0 {
        0
    } else {
        asset_total(bs, asset, users.drop_last()) + avail_of(bs, users.last(), asset) + locked_of(bs, users.last(), asset)
    }
}

/// What the intents move in `asset` for the users of `users`.
pub open spec fn users_delta(its: Seq<LedgerIntent>, asset: u128, users: Seq<u128>) -> int
    decreases users.len(),
{
    if users.len() == 0 {
        0
    } else {
        users_delta(its, asset, users.drop_last()) + avail_delta(its, users.last(), asset) + locked_delta(its, users.last(), asset)
    }
}

/// What one intent moves in `asset` for the users of `users`.
pub open spec fn users_share(it: LedgerIntent, asset: u128, users: Seq<u128>) -> int
    decreases users.len(),
{
    if users.len() == 0 {
        0
    } else {
        users_share(it, asset, users.drop_last()) + if it.user_id == users.last() && it.asset_id == asset {
            it.available_delta + it.locked_delta
        } else {
            0
        }
    }
}

proof fn lemma_total_moved(before: Seq<Balance>, after: Seq<Balance>, its: Seq<LedgerIntent>, asset: u128, users: Seq<u128>)
    requires
        moved_by(before, after, its),
    ensures
        asset_total(after, asset, users) == asset_total(before, asset, users) + users_delta(its, asset, users),
    decreases users.len(),
{
    if users.len() > 0 {
        lemma_total_moved(before, after, its, asset, users.drop_last());
        assert(avail_of(after, users.last(), asset) == avail_of(before, users.last(), asset) + avail_delta(its, users.last(), asset));
        assert(locked_of(after, users.last(), asset) == locked_of(before, users.last(), asset) + locked_delta(its, users.last(), asset));
    }
}

proof fn lemma_users_delta_step(its: Seq<LedgerIntent>, asset: u128, users: Seq<u128>)
    requires
        its.len() > 0,
    ensures
        users_delta(its, asset, users) == users_delta(its.drop_last(), asset, users) + users_share(its.last(), asset, users),
    decreases users.len(),
{
    if users.len() > 0 {
        lemma_users_delta_step(its, asset, users.drop_last());
    }
}

proof fn lemma_users_share_distinct(it: LedgerIntent, asset: u128, users: Seq<u128>)
    requires
        users.no_duplicates(),
    ensures
        users_share(it, asset, users) == if it.asset_id == asset && users.contains(it.user_id) {
            it.available_delta + it.locked_delta
        } else {
            0
        },
    decreases users.len(),
{
    if users.len() > 0 {
        let init = users.drop_last();
        assert(init.no_duplicates()) by {
            assert forall|i: int, j: int| 0 <= i < init.len() && 0 <= j < init.len() && i != j implies init[i] != init[j] by {
                assert(init[i] == users[i] && init[j] == users[j]);
            }
        }
        lemma_users_share_distinct(it, asset, init);
        assert(users =~= init.push(users.last()));
        if it.user_id == users.last() {
            assert(!init.contains(it.user_id)) by {
                if init.contains(it.user_id) {
                    let k = choose|k: int| 0 <= k < init.len() && init[k] == it.user_id;
                    assert(users[k] == users[users.len() - 1]);
                }
            }
        }
        assert(users.contains(it.user_id) == (init.contains(it.user_id) || it.user_id == users.last())) by {
            if init.contains(it.user_id) {
                let k = choose|k: int| 0 <= k < init.len() && init[k] == it.user_id;
                assert(users[k] == it.user_id);
            }
            if users.contains(it.user_id) && it.user_id != users.last() {
                let k = choose|k: int| 0 <= k < users.len() && users[k] == it.user_id;
                assert(init[k] == it.user_id);
            }
        }
    }
}

proof fn lemma_users_delta_net(its: Seq<LedgerIntent>, asset: u128, users: Seq<u128>)
    requires
        users.no_duplicates(),
        forall|k: int| 0 <= k < its.len() && #[trigger] its[k].asset_id == asset ==> users.contains(its[k].user_id),
    ensures
        users_delta(its, asset, users) == asset_net(its, asset),
    decreases its.len(),
{
    if its.len() == 0 {
        assert(users_delta(its, asset, users) == 0) by {
            lemma_users_delta_empty(its, asset, users);
        }
    } else {
        let init = its.drop_last();
        assert forall|k: int| 0 <= k < init.len() && #[trigger] init[k].asset_id == asset implies users.contains(init[k].user_id) by {
            assert(init[k] == its[k]);
        }
        lemma_users_delta_net(init, asset, users);
        lemma_users_delta_step(its, asset, users);
        lemma_users_share_distinct(its.last(), asset, users);
        assert(its.last() == its[its.len() - 1]);
    }
}

proof fn lemma_users_delta_empty(its: Seq<LedgerIntent>, asset: u128, users: Seq<u128>)
    requires
        its.len() == 0,
    ensures
        users_delta(its, asset, users) == 0,
    decreases users.len(),
{
    if users.len() > 0 {
        lemma_users_delta_empty(its, asset, users.drop_last());
    }
}

/// The total of every asset, summed over its holders: a command moves it by
/// exactly the net of its intents in that asset. `users` lists every holder
/// of the asset after the command (each once), so it lists every holder
/// before it too.
pub proof fn law_asset_totals_move_by_intents(s: StateModel, cmd: CommandModel, now: i64, ids: Seq<u128>, asset: u128, users: Seq<u128>)
    requires
        users.no_duplicates(),
    ensures
        spec_apply_command_effects(s, cmd, now, ids) matches Run::Done(s2, OutcomeModel::Applied { intents, .. })
            ==> ((forall|u: u128| #[trigger] has_row(s2.balances, u, asset) ==> users.contains(u))
            ==> asset_total(s2.balances, asset, users) == asset_total(s.balances, asset, users) + asset_net(intents, asset)),
{
    law_intents_account_for_balances(s, cmd, now, ids);
    if let Run::Done(s2, OutcomeModel::Applied { intents, .. }) = spec_apply_command_effects(s, cmd, now, ids) {
        if forall|u: u128| #[trigger] has_row(s2.balances, u, asset) ==> users.contains(u) {
            lemma_total_moved(s.balances, s2.balances, intents, asset, users);
            assert forall|k: int| 0 <= k < intents.len() && #[trigger] intents[k].asset_id == asset implies users.contains(intents[k].user_id) by {
                assert(has_row(s2.balances, intents[k].user_id, intents[k].asset_id));
            }
            lemma_users_delta_net(intents, asset, users);
        }
    }
}

/// Conservation of every asset: placing or cancelling an order leaves the
/// total of each asset (available plus locked, summed over its holders) as
/// it was; funds only move between available and locked and between the
/// two sides of a trade. `users` lists every holder of the asset after the
/// command, each once.
pub proof fn law_orders_conserve_asset_totals(s: StateModel, cmd: CommandModel, now: i64, ids: Seq<u128>, asset: u128, users: Seq<u128>)
    requires
        !(cmd is CreditBalance),
        users.no_duplicates(),
    ensures
        spec_apply_command_effects(s, cmd, now, ids) matches Run::Done(s2, OutcomeModel::Applied { .. })
            ==> ((forall|u: u128| #[trigger] has_row(s2.balances, u, asset) ==> users.contains(u))
            ==> asset_total(s2.balances, asset, users) == asset_total(s.balances, asset, users)),
{
    law_asset_totals_move_by_intents(s, cmd, now, ids, asset, users);
    law_orders_conserve_assets(s, cmd, now, ids, asset);
}

/// A credit raises the total of its asset, summed over its holders, by the
/// amount credited, and leaves every other asset's total as it was.
/// `users` lists every holder of the asset after the credit, each once.
pub proof fn law_credit_adds_to_total(s: StateModel, cmd: CommandModel, now: i64, ids: Seq<u128>, asset: u128, users: Seq<u128>)
    requires
        users.no_duplicates(),
    ensures
        cmd matches CommandModel::CreditBalance { asset_id, amount, .. } ==> (
            spec_apply_command_effects(s, cmd, now, ids) matches Run::Done(s2, OutcomeModel::Applied { .. })
            ==> ((forall|u: u128| #[trigger] has_row(s2.balances, u, asset) ==> users.contains(u))
            ==> asset_total(s2.balances, asset, users) == asset_total(s.balances, asset, users)
                + if asset_id == asset { amount as int } else { 0int })),
{
    law_asset_totals_move_by_intents(s, cmd, now, ids, asset, users);
    if let CommandModel::CreditBalance { command_id, user_id, asset_id, amount } = cmd {
        if let Run::Done(s2, OutcomeModel::Applied { intents, .. }) = spec_apply_command_effects(s, cmd, now, ids) {
            crate::ledger::lemma_balances_with_row(s.balances, user_id, asset_id, now);
            lemma_asset_net_single(intents[0], asset);
            assert(intents =~= seq![intents[0]]);
        }
    }
}

/// Matching that records no trade moves no balance and no order and returns
/// no intents: it can only tidy the book.
proof fn lemma_match_no_trade(s: StateModel, ctx: MatchCtx, ids: Seq<u128>, sequence: i32, acc: Seq<LedgerIntent>)
    ensures
        spec_match(s, ctx, ids, sequence, acc) matches Run::Done(s3, (its, _)) ==> (s3.trades.len() == s.trades.len() ==> {
            &&& its == acc
            &&& s3.balances == s.balances
            &&& s3.orders == s.orders
            &&& s3.markets == s.markets
            &&& s3.assets == s.assets
        }),
{
    lemma_match_step_limit(s, ctx, head_id(ids), sequence);
    match spec_match_step(s, ctx, head_id(ids), sequence) {
        Run::Done(s1, None) => {
            reveal(spec_match_step);
        },
        Run::Done(s1, Some((its, q))) => {
            lemma_match_step_decreases(s, ctx, head_id(ids), sequence);
            lemma_match_limit(s1, ctx, tail_ids(ids), q, acc + its);
        },
        _ => {},
    }
}

/// An order just queued at a price can be taken off that price again.
proof fn lemma_remove_rested(side: Seq<LevelModel>, price: i64, bo: BookOrder)
    ensures
        spec_remove_from_side(side_with_order(side, price, bo), price, bo.order_id) is Ok,
{
    let p = |l: LevelModel| l.price == price;
    let pred = |o: BookOrder| o.order_id != bo.order_id;
    let ns = side_with_order(side, price, bo);
    reveal(Seq::filter);
    match level_index(side, price) {
        Some(i) => {
            crate::memory::lemma_first_index_range(side, p);
            let lv = LevelModel { price, orders: side[i].orders.push(bo) };
            lemma_first_index_update(side, p, i, lv);
            assert(level_index(ns, price) == Some(i));
            let q = side[i].orders.push(bo);
            assert(q.drop_last() =~= side[i].orders);
            side[i].orders.lemma_filter_len(pred);
            assert(q.filter(pred) == side[i].orders.filter(pred));
        },
        None => {
            let gt = |l: LevelModel| l.price > price;
            crate::memory::lemma_first_index_range(side, gt);
            let pos = insert_position(side, price);
            assert(0 <= pos <= side.len());
            let lv = LevelModel { price, orders: seq![bo] };
            assert(ns == side.insert(pos, lv));
            assert forall|j: int| 0 <= j < side.len() implies !p(#[trigger] side[j]) by {
                if p(side[j]) {
                    lemma_some_first(side, p, j);
                }
            }
            assert forall|j: int| 0 <= j < pos implies !p(#[trigger] ns[j]) by {
                assert(ns[j] == side[j]);
            }
            assert(is_first(ns, p, pos));
            lemma_first_index_found(ns, p, pos);
            assert(level_index(ns, price) == Some(pos));
            let q = seq![bo];
            assert(q.drop_last() =~= Seq::<BookOrder>::empty());
            assert(Seq::<BookOrder>::empty().filter(pred) =~= Seq::<BookOrder>::empty());
            assert(q.last() == bo);
            assert(!pred(bo));
            assert(q.filter(pred) == q.drop_last().filter(pred));
            assert(q.filter(pred).len() == 0);
        },
    }
}

/// Cancelling after placing: the cancel succeeds, every balance holds its
/// amounts from before the order was placed, the order is cancelled, and
/// its side of its market's book holds no entry of it.
pub open spec fn cancel_undoes(
    s: StateModel,
    s1: StateModel,
    command_id: u128,
    user: u128,
    order_id: Seq<char>,
    now: i64,
    symbol: Seq<char>,
    t: OrderType,
) -> bool {
    spec_cancel_order(s1, command_id, user, order_id, now) matches Run::Done(s2, _)
        && (restores(s.balances, s2.balances) && s2.order(s.next_order_id) is Some
        && s2.order(s.next_order_id).unwrap().status == OrderStatus::Cancelled
        && s2.book(symbol) is Some && side_without(side_of(s2.book(symbol).unwrap(), t), s.next_order_id))
}

/// Placing an order that trades nothing and then cancelling it undoes it:
/// the cancel succeeds, releases exactly what the order reserved, so every
/// balance is back to its amounts from before, leaves the order cancelled
/// and takes it off the book. The cancel names the new order by its id, no
/// balance holds a negative locked amount, and every order queued in the
/// books has an id below the next one to be given out.
pub proof fn law_cancel_after_unmatched_create_restores(
    s: StateModel,
    c1: u128,
    user: u128,
    symbol: Seq<char>,
    t: OrderType,
    price: i64,
    qty: i64,
    now1: i64,
    ids: Seq<u128>,
    c2: u128,
    order_id: Seq<char>,
    now2: i64,
)
    requires
        spec_parse_order_id(order_id) == Some(s.next_order_id),
        forall|u: u128, a: u128| #[trigger] locked_of(s.balances, u, a) >= 0,
        books_ids_below(s.books, s.next_order_id),
    ensures
        spec_create_order(s, c1, user, symbol, t, price, qty, now1, ids) matches Run::Done(s1, _)
            ==> (s1.trades.len() == s.trades.len() ==> cancel_undoes(s, s1, c2, user, order_id, now2, symbol, t)),
{
    if let Run::Done(sf, _) = spec_create_order(s, c1, user, symbol, t, price, qty, now1, ids) {
        if sf.trades.len() == s.trades.len() {
            let mi = crate::memory::market_index(s.markets, symbol).unwrap();
            let m = s.markets[mi];
            let ai = crate::memory::asset_index(s.assets, m.base_asset_id).unwrap();
            let dec = s.assets[ai].decimals;
            let (ra, ramt) = match t {
                OrderType::Buy => (m.quote_asset_id, spec_quote_notional_ok(s, symbol, price, qty)),
                OrderType::Sell => (m.base_asset_id, qty),
            };
            let bi = balance_index(s.balances, user, ra).unwrap();
            let b = s.balances[bi];
            let nb = Balance { available: (b.available - ramt) as i64, locked: (b.locked + ramt) as i64, updated_at: now1, ..b };
            let id = s.next_order_id;
            let s1 = with_balance(s, bi, nb);
            let o = new_order(id, user, symbol, t, price, qty, now1);
            let s2 = StateModel { orders: orders_with(s1.orders, o), next_order_id: (id + 1) as u64, ..s1 };
            let ctx = match_ctx(id, m.id, symbol, m.base_asset_id, m.quote_asset_id, dec, c1, now1);
            lemma_orders_with_order(s1.orders, o);
            lemma_match_limit(s2, ctx, ids, 1, Seq::empty());
            lemma_match_no_trade(s2, ctx, ids, 1, Seq::empty());
            assert(price * qty > 0) by (nonlinear_arith)
                requires
                    price > 0,
                    qty > 0,
            ;
            crate::helper::quote_notional::lemma_pow10_positive(dec as nat);
            lemma_found_row(s.balances, user, ra);
            lemma_update_row(s.balances, bi, nb);
            let s3 = spec_match(s2, ctx, ids, 1, Seq::empty())->Done_0;
            assert(s3.orders == s2.orders);
            assert(s3.balances == s.balances.update(bi, nb));
            let bo = BookOrder { user_id: user, order_id: id, quantity: qty };
            assert(sf == spec_rest_on_book(s3, symbol, t, price, bo));
            // The new order, unchanged by a matching that traded nothing.
            let oi = order_index(s2.orders, id).unwrap();
            assert(sf.orders == s2.orders);
            assert(sf.orders[oi] == o);
            assert(sf.markets == s.markets && sf.assets == s.assets);
            // The book of the market holds the order at its price.
            let bk = |x: MarketBookModel| x.symbol == symbol;
            let (sb, bki) = with_book(s3, symbol);
            match book_index(s3.books, symbol) {
                Some(k) => crate::memory::lemma_first_index_range(s3.books, bk),
                None => lemma_first_index_push(s3.books, bk,
                    MarketBookModel { symbol, book: crate::types::BookModel { bids: Seq::empty(), asks: Seq::empty() } }),
            }
            assert(book_index(sb.books, symbol) == Some(bki));
            let mb = sb.books[bki];
            let nbk = with_side(mb.book, t, side_with_order(side_of(mb.book, t), price, bo));
            lemma_first_index_update(sb.books, bk, bki, MarketBookModel { book: nbk, ..mb });
            assert(book_index(sf.books, symbol) == Some(bki));
            assert(sf.books[bki].book == nbk);
            lemma_remove_rested(side_of(mb.book, t), price, bo);
            lemma_match_keeps_ids(s2, ctx, ids, 1, Seq::empty(), id);
            assert(books_ids_below(sb.books, id)) by {
                assert forall|i: int| 0 <= i < sb.books.len() implies side_ids_below((#[trigger] sb.books[i]).book.bids, id)
                    && side_ids_below(sb.books[i].book.asks, id) by {
                    if i < s3.books.len() {
                        assert(sb.books[i] == s3.books[i]);
                    }
                }
            }
            assert(side_ids_below(side_of(mb.book, t), id));
            lemma_remove_rested_leaves_none(side_of(mb.book, t), price, bo);
            assert(side_of(nbk, t) == side_with_order(side_of(mb.book, t), price, bo));
            // What the order reserved, which the cancel releases.
            if t == OrderType::Buy {
                let a = price * qty;
                let d = crate::helper::quote_notional::pow10(dec as nat);
                assert(a / d >= 0) by (nonlinear_arith)
                    requires
                        a > 0,
                        d >= 1,
                ;
            }
            assert(ramt >= 0);
            assert(reserved_by(o, m.base_asset_id, m.quote_asset_id, dec) == Ok::<(u128, i64), ApplyError>((ra, ramt)));
            // The reserving balance row, locked by the order.
            let pb = |x: Balance| x.user_id == user && x.asset_id == ra;
            crate::memory::lemma_first_index_range(s.balances, pb);
            lemma_first_index_update(s.balances, pb, bi, nb);
            assert(balance_index(sf.balances, user, ra) == Some(bi));
            assert(locked_of(s.balances, user, ra) >= 0);
            assert(b.locked >= 0);
            let nb2 = Balance { locked: (nb.locked - ramt) as i64, available: (nb.available + ramt) as i64, updated_at: now2, ..nb };
            assert(nb2.available == b.available && nb2.locked == b.locked);
            assert(s.balances.update(bi, nb).update(bi, nb2) =~= s.balances.update(bi, nb2));
            lemma_update_row(s.balances, bi, nb2);
            let s_rm = StateModel {
                books: sf.books.update(bki, MarketBookModel { book: spec_remove_from_book(nbk, t, price, id)->Ok_0, ..sf.books[bki] }),
                ..sf
            };
            let oc = OrderModel { status: OrderStatus::Cancelled, cancelled_at: Some(now2), ..o };
            let fin = with_order(with_balance(s_rm, bi, nb2), oi, oc);
            assert(spec_cancel_order(sf, c2, user, order_id, now2) == Run::Done(fin, seq![unlock_intent(c2, nb2, ramt)]));
            let po = |x: OrderModel| x.id == id;
            crate::memory::lemma_first_index_range(sf.orders, po);
            lemma_first_index_update(sf.orders, po, oi, oc);
            assert(fin.order(id) == Some(oc));
            let rb = spec_remove_from_book(nbk, t, price, id)->Ok_0;
            lemma_first_index_update(sf.books, bk, bki, MarketBookModel { book: rb, ..sf.books[bki] });
            assert(fin.books == s_rm.books);
            assert(fin.book(symbol) == Some(rb));
            assert(side_without(side_of(rb, t), id));
            assert(restores(s.balances, fin.balances));
        }
    }
}

/// What cancelling the order named `order_id` gives back, by the order's
/// own terms: for a sell, the base asset and its quantity less what was
/// filled; for a buy, the quote asset and the notional of that remaining
/// quantity at the order's limit price.
pub open spec fn released_on_cancel(s: StateModel, order_id: Seq<char>) -> (u128, int) {
    let o = s.order(spec_parse_order_id(order_id).unwrap()).unwrap();
    let m = s.markets[crate::memory::market_index(s.markets, o.market_symbol).unwrap()];
    let dec = s.assets[crate::memory::asset_index(s.assets, m.base_asset_id).unwrap()].decimals;
    let left = o.quantity - o.filled_quantity;
    if o.order_type == OrderType::Sell {
        (m.base_asset_id, left)
    } else {
        (m.quote_asset_id, crate::helper::quote_notional::spec_quote_notional(o.price, left as i64, dec).unwrap() as int)
    }
}

/// `amount` of `asset` went from locked to available in `user`'s balance,
/// the single intent records it, and no other amount moved.
pub open spec fn cancel_releases(s: StateModel, s2: StateModel, its: Seq<LedgerIntent>, user: u128, asset: u128, amount: int) -> bool {
    &&& locked_of(s2.balances, user, asset) == locked_of(s.balances, user, asset) - amount
    &&& avail_of(s2.balances, user, asset) == avail_of(s.balances, user, asset) + amount
    &&& its.len() == 1 && its[0].user_id == user && its[0].asset_id == asset
    &&& its[0].available_delta == amount && its[0].locked_delta == -amount
    &&& forall|u: u128, a: u128| !(u == user && a == asset) ==> #[trigger] avail_of(s2.balances, u, a) == avail_of(s.balances, u, a)
        && locked_of(s2.balances, u, a) == locked_of(s.balances, u, a)
}

/// Cancelling releases what the order still holds: an open sell order's
/// remaining base quantity (its quantity less what was filled), or an open
/// buy order's remaining quote notional at its limit, goes from locked to
/// available in the canceller's balance of that asset, whether or not the
/// order was partly filled; the cancel's single intent records that amount,
/// and no other balance amount moves.
#[verifier::spinoff_prover]
#[verifier::rlimit(40)]
pub proof fn law_cancel_releases_remaining(s: StateModel, command_id: u128, user: u128, order_id: Seq<char>, now: i64)
    ensures
        spec_cancel_order(s, command_id, user, order_id, now) matches Run::Done(s2, its)
            ==> cancel_releases(s, s2, its, user, released_on_cancel(s, order_id).0, released_on_cancel(s, order_id).1)
                && s.order(spec_parse_order_id(order_id).unwrap()).unwrap().user_id == user,
{
    lemma_cancel_moves(s, command_id, user, order_id, now);
    if let Run::Done(s2, its) = spec_cancel_order(s, command_id, user, order_id, now) {
        let id = spec_parse_order_id(order_id).unwrap();
        let oi = order_index(s.orders, id).unwrap();
        let o = s.orders[oi];
        let m = s.markets[crate::memory::market_index(s.markets, o.market_symbol).unwrap()];
        let dec = s.assets[crate::memory::asset_index(s.assets, m.base_asset_id).unwrap()].decimals;
        let (asset, amount) = reserved_by(o, m.base_asset_id, m.quote_asset_id, dec).unwrap();
        lemma_found_row(s.balances, o.user_id, asset);
        let bi = balance_index(s.balances, o.user_id, asset).unwrap();
        let b = s.balances[bi];
        let nb = Balance { locked: (b.locked - amount) as i64, available: (b.available + amount) as i64, updated_at: now, ..b };
        assert(its == seq![unlock_intent(command_id, nb, amount)]);
        assert(its[0].user_id == user && its[0].asset_id == asset);
        assert forall|u: u128, a: u128| #[trigger] avail_of(s2.balances, u, a) == avail_of(s.balances, u, a)
            + (if u == user && a == asset { amount as int } else { 0 })
            && locked_of(s2.balances, u, a) == locked_of(s.balances, u, a) - (if u == user && a == asset { amount as int } else { 0 }) by {
            lemma_delta_single(its[0], u, a);
            assert(its =~= seq![its[0]]);
        }
        assert(avail_of(s2.balances, user, asset) == avail_of(s.balances, user, asset) + amount);
        assert(locked_of(s2.balances, user, asset) == locked_of(s.balances, user, asset) - amount);
        assert(s.order(id) == Some(o));
        let left = o.quantity - o.filled_quantity;
        assert(fits_i64(o.remaining()));
        assert(left as i64 == o.remaining() as i64);
        if o.order_type == OrderType::Sell {
            assert(asset == m.base_asset_id && amount as int == left);
        } else {
            assert(asset == m.quote_asset_id);
            assert(crate::helper::quote_notional::spec_quote_notional(o.price, left as i64, dec) == Ok::<i64, crate::commands::apply_command::ApplyError>(amount));
        }
        assert(released_on_cancel(s, order_id) == (asset, amount as int));
        assert forall|u: u128, a: u128| !(u == user && a == asset) implies #[trigger] avail_of(s2.balances, u, a) == avail_of(s.balances, u, a)
            && locked_of(s2.balances, u, a) == locked_of(s.balances, u, a) by {
            lemma_delta_single(its[0], u, a);
            assert(its =~= seq![its[0]]);
        }
        assert(its[0].locked_delta == -(amount as int));
        assert(its[0].available_delta == amount as int);
        assert(cancel_releases(s, s2, its, user, asset, amount as int));
    }
}

/// A taker meets the best price first: a buyer the lowest ask level, a
/// seller the highest bid level. When that level crosses the taker's limit
/// and its front order is another user's, the taker trades with that order,
/// at that level's price, for the smaller of the two quantities.
pub proof fn law_taker_meets_best_level(side: Seq<LevelModel>, taker: OrderType, taker_price: i64, remaining: i64, taker_user: u128)
    requires
        remaining > 0,
        side.len() > 0,
    ensures
        taker == OrderType::Sell && side.last().price >= taker_price && side.last().orders.len() > 0
            && side.last().orders[0].user_id != taker_user ==> next_fill_side(side, taker, taker_price, remaining, taker_user).1 == Some(Fill {
                maker_order_id: side.last().orders[0].order_id,
                maker_user_id: side.last().orders[0].user_id,
                maker_price: side.last().price,
                fill_qty: if remaining <= side.last().orders[0].quantity { remaining } else { side.last().orders[0].quantity },
            }),
        taker == OrderType::Buy && side[0].price <= taker_price && side[0].orders.len() > 0
            && side[0].orders[0].user_id != taker_user ==> next_fill_side(side, taker, taker_price, remaining, taker_user).1 == Some(Fill {
                maker_order_id: side[0].orders[0].order_id,
                maker_user_id: side[0].orders[0].user_id,
                maker_price: side[0].price,
                fill_qty: if remaining <= side[0].orders[0].quantity { remaining } else { side[0].orders[0].quantity },
            }),
{
}

/// Price priority: on a side kept in increasing price order, a fill is at
/// a price crossing the taker's limit and no worse for the taker than any
/// level that holds orders: a seller trades at the highest such bid price,
/// a buyer at the lowest such ask price.
pub proof fn law_fill_at_best_price(side: Seq<LevelModel>, taker: OrderType, taker_price: i64, remaining: i64, taker_user: u128)
    requires
        crate::memory::sorted_levels(side),
    ensures
        next_fill_side(side, taker, taker_price, remaining, taker_user).1 matches Some(f) ==> {
            &&& crosses(taker, f.maker_price, taker_price)
            &&& forall|j: int| 0 <= j < side.len() && side[j].orders.len() > 0 ==> (if taker == OrderType::Sell {
                #[trigger] side[j].price <= f.maker_price
            } else {
                side[j].price >= f.maker_price
            })
        },
    decreases side.len(),
{
    if side.len() > 0 {
        let bi = best_position(side, taker);
        let level = side[bi];
        if crosses(taker, level.price, taker_price) && level.orders.len() == 0 {
            let r = side.remove(bi);
            assert(crate::memory::sorted_levels(r)) by {
                assert forall|a: int, c: int| 0 <= a < c < r.len() implies #[trigger] r[a].price < #[trigger] r[c].price by {
                    let a0 = if a < bi { a } else { a + 1 };
                    let c0 = if c < bi { c } else { c + 1 };
                    assert(r[a] == side[a0] && r[c] == side[c0]);
                }
            }
            law_fill_at_best_price(r, taker, taker_price, remaining, taker_user);
            if let Some(f) = next_fill_side(r, taker, taker_price, remaining, taker_user).1 {
                assert forall|j: int| 0 <= j < side.len() && side[j].orders.len() > 0 implies (if taker == OrderType::Sell {
                    #[trigger] side[j].price <= f.maker_price
                } else {
                    side[j].price >= f.maker_price
                }) by {
                    assert(j != bi);
                    let j0 = if j < bi { j } else { j - 1 };
                    assert(r[j0] == side[j]);
                }
            }
        } else if crosses(taker, level.price, taker_price) {
            if let Some(f) = next_fill_side(side, taker, taker_price, remaining, taker_user).1 {
                assert(f.maker_price == level.price);
                assert forall|j: int| 0 <= j < side.len() && side[j].orders.len() > 0 implies (if taker == OrderType::Sell {
                    #[trigger] side[j].price <= f.maker_price
                } else {
                    side[j].price >= f.maker_price
                }) by {
                    if j != bi {
                        if taker == OrderType::Sell {
                            assert(side[j].price < side[bi].price);
                        } else {
                            assert(side[bi].price < side[j].price);
                        }
                    }
                }
            }
        }
    }
}

/// Time priority: a fill is with the front (oldest) order of a level of
/// the side, at that level's price, for the smaller of the taker's
/// remaining quantity and that order's quantity.
pub proof fn law_fill_takes_front_order(side: Seq<LevelModel>, taker: OrderType, taker_price: i64, remaining: i64, taker_user: u128)
    ensures
        next_fill_side(side, taker, taker_price, remaining, taker_user).1 matches Some(f) ==> exists|j: int|
            0 <= j < side.len() && #[trigger] side[j].orders.len() > 0 && side[j].price == f.maker_price
            && side[j].orders[0].order_id == f.maker_order_id && side[j].orders[0].user_id == f.maker_user_id
            && side[j].orders[0].user_id != taker_user
            && f.fill_qty == (if remaining <= side[j].orders[0].quantity { remaining } else { side[j].orders[0].quantity }),
    decreases side.len(),
{
    if side.len() > 0 {
        let bi = best_position(side, taker);
        let level = side[bi];
        if crosses(taker, level.price, taker_price) && level.orders.len() == 0 {
            let r = side.remove(bi);
            law_fill_takes_front_order(r, taker, taker_price, remaining, taker_user);
            if let Some(f) = next_fill_side(r, taker, taker_price, remaining, taker_user).1 {
                let j = choose|j: int| 0 <= j < r.len() && #[trigger] r[j].orders.len() > 0 && r[j].price == f.maker_price
                    && r[j].orders[0].order_id == f.maker_order_id && r[j].orders[0].user_id == f.maker_user_id
                    && r[j].orders[0].user_id != taker_user
                    && f.fill_qty == (if remaining <= r[j].orders[0].quantity { remaining } else { r[j].orders[0].quantity });
                let j0 = if j < bi { j } else { j + 1 };
                assert(r[j] == side[j0]);
                assert(side[j0].orders.len() > 0);
            }
        } else if crosses(taker, level.price, taker_price) {
            if let Some(f) = next_fill_side(side, taker, taker_price, remaining, taker_user).1 {
                assert(side[bi].orders.len() > 0);
            }
        }
    }
}

/// The total quantity queued on a level.
pub open spec fn queue_total(q: Seq<BookOrder>) -> int
    decreases q.len(),
{
    if q.len() == 0 { 0 } else { queue_total(q.drop_last()) + q.last().quantity }
}

/// The total quantity queued on a side.
pub open spec fn side_total(side: Seq<LevelModel>) -> int
    decreases side.len(),
{
    if side.len() == 0 { 0 } else { side_total(side.drop_last()) + queue_total(side.last().orders) }
}

proof fn lemma_queue_total_front(q: Seq<BookOrder>, x: BookOrder)
    requires
        q.len() > 0,
    ensures
        queue_total(q.drop_first()) == queue_total(q) - q[0].quantity,
        queue_total(q.update(0, x)) == queue_total(q) - q[0].quantity + x.quantity,
    decreases q.len(),
{
    if q.len() == 1 {
        assert(q.drop_first() =~= Seq::<BookOrder>::empty());
        assert(queue_total(Seq::<BookOrder>::empty()) == 0);
        assert(q.update(0, x).drop_last() =~= Seq::<BookOrder>::empty());
        assert(q.drop_last() =~= Seq::<BookOrder>::empty());
        assert(q.last() == q[0]);
        assert(q.update(0, x).last() == x);
    } else {
        lemma_queue_total_front(q.drop_last(), x);
        assert(q.drop_first().drop_last() =~= q.drop_last().drop_first());
        assert(q.drop_first().last() == q.last());
        assert(q.drop_last()[0] == q[0]);
        assert(q.update(0, x).drop_last() =~= q.drop_last().update(0, x));
        assert(q.update(0, x).last() == q.last());
    }
}

proof fn lemma_side_total_update(side: Seq<LevelModel>, i: int, l: LevelModel)
    requires
        0 <= i < side.len(),
    ensures
        side_total(side.update(i, l)) == side_total(side) - queue_total(side[i].orders) + queue_total(l.orders),
        side_total(side.remove(i)) == side_total(side) - queue_total(side[i].orders),
    decreases side.len(),
{
    if i == side.len() - 1 {
        assert(side.update(i, l).drop_last() =~= side.drop_last());
        assert(side.remove(i) =~= side.drop_last());
    } else {
        lemma_side_total_update(side.drop_last(), i, l);
        assert(side.update(i, l).drop_last() =~= side.drop_last().update(i, l));
        assert(side.remove(i).drop_last() =~= side.drop_last().remove(i));
        assert(side.remove(i).last() == side.last());
    }
}

/// Quantity is kept on the book: looking for a fill takes exactly the
/// filled quantity off the side (dropping empty levels takes nothing), and
/// a fill is for no more than the taker has left.
pub proof fn law_fill_takes_its_quantity(side: Seq<LevelModel>, taker: OrderType, taker_price: i64, remaining: i64, taker_user: u128)
    requires
        remaining > 0,
    ensures
        ({
            let (ns, f) = next_fill_side(side, taker, taker_price, remaining, taker_user);
            &&& f is None ==> side_total(ns) == side_total(side)
            &&& f matches Some(x) ==> side_total(ns) == side_total(side) - x.fill_qty && x.fill_qty <= remaining
        }),
    decreases side.len(),
{
    if side.len() > 0 {
        let bi = best_position(side, taker);
        let level = side[bi];
        if crosses(taker, level.price, taker_price) {
            if level.orders.len() == 0 {
                lemma_side_total_update(side, bi, level);
                assert(queue_total(level.orders) == 0);
                law_fill_takes_its_quantity(side.remove(bi), taker, taker_price, remaining, taker_user);
            } else if level.orders[0].user_id != taker_user {
                let front = level.orders[0];
                let q = if remaining <= front.quantity { remaining } else { front.quantity };
                let nf = BookOrder { quantity: (front.quantity - q) as i64, ..front };
                lemma_queue_total_front(level.orders, nf);
                let orders = if q == front.quantity { level.orders.drop_first() } else { level.orders.update(0, nf) };
                assert(queue_total(orders) == queue_total(level.orders) - q);
                lemma_side_total_update(side, bi, LevelModel { price: level.price, orders });
                if orders.len() == 0 {
                    assert(queue_total(orders) == 0);
                }
            }
        }
    }
}

/// A cancel marks the named order cancelled at `now` and leaves every
/// other order as it was.
pub proof fn law_cancel_marks_only_its_order(s: StateModel, command_id: u128, user: u128, order_id: Seq<char>, now: i64)
    ensures
        spec_cancel_order(s, command_id, user, order_id, now) matches Run::Done(s2, _) ==> {
            let id = spec_parse_order_id(order_id).unwrap();
            &&& s.order(id) is Some
            &&& s2.order(id) == Some(OrderModel { status: OrderStatus::Cancelled, cancelled_at: Some(now), ..s.order(id).unwrap() })
            &&& s2.orders.len() == s.orders.len()
            &&& forall|k: int| 0 <= k < s.orders.len() && s.orders[k].id != id ==> #[trigger] s2.orders[k] == s.orders[k]
        },
{
    if let Run::Done(s2, _) = spec_cancel_order(s, command_id, user, order_id, now) {
        let id = spec_parse_order_id(order_id).unwrap();
        let oi = order_index(s.orders, id).unwrap();
        crate::memory::lemma_first_index_range(s.orders, |x: OrderModel| x.id == id);
        let o = s.orders[oi];
        let oc = OrderModel { status: OrderStatus::Cancelled, cancelled_at: Some(now), ..o };
        assert(s2.orders == s.orders.update(oi, oc));
        lemma_first_index_update(s.orders, |x: OrderModel| x.id == id, oi, oc);
        assert(s.order(id) == Some(o));
        assert(s2.order(id) == Some(oc));
    }
}

/// On a side with increasing prices, taking an order off its price leaves
/// no entry of it at that price.
proof fn lemma_removed_at_price(side: Seq<LevelModel>, price: i64, id: u64)
    requires
        crate::memory::sorted_levels(side),
    ensures
        spec_remove_from_side(side, price, id) matches Ok(ns) ==> forall|j: int, k: int|
            0 <= j < ns.len() && ns[j].price == price && 0 <= k < ns[j].orders.len() ==> #[trigger] ns[j].orders[k].order_id != id,
{
    if let Ok(ns) = spec_remove_from_side(side, price, id) {
        let i = level_index(side, price).unwrap();
        crate::memory::lemma_first_index_range(side, |l: LevelModel| l.price == price);
        let pred = |o: BookOrder| o.order_id != id;
        side[i].orders.filter_lemma(pred);
        let nq = crate::helper::remove_from_book::without_order(side[i].orders, id);
        assert forall|j: int, k: int| 0 <= j < ns.len() && ns[j].price == price && 0 <= k < ns[j].orders.len()
            implies #[trigger] ns[j].orders[k].order_id != id by {
            if nq.len() == 0 {
                let j0 = if j < i { j } else { j + 1 };
                assert(ns[j] == side[j0]);
                if j0 < i {
                    assert(side[j0].price < side[i].price);
                } else {
                    assert(side[i].price < side[j0].price);
                }
            } else if j != i {
                assert(ns[j] == side[j]);
                if j < i {
                    assert(side[j].price < side[i].price);
                } else {
                    assert(side[i].price < side[j].price);
                }
            } else {
                assert(ns[j].orders == nq);
                assert(pred(nq[k]));
            }
        }
    }
}

/// A cancel takes the order off the book: afterwards its market's book
/// holds no entry of it at its price on its side.
pub proof fn law_cancel_takes_order_off_book(s: StateModel, command_id: u128, user: u128, order_id: Seq<char>, now: i64)
    requires
        s.wf(),
    ensures
        spec_cancel_order(s, command_id, user, order_id, now) matches Run::Done(s2, _) ==> {
            let id = spec_parse_order_id(order_id).unwrap();
            let o = s.order(id).unwrap();
            &&& s2.book(o.market_symbol) is Some
            &&& forall|j: int, k: int| 0 <= j < side_of(s2.book(o.market_symbol).unwrap(), o.order_type).len()
                && side_of(s2.book(o.market_symbol).unwrap(), o.order_type)[j].price == o.price
                && 0 <= k < side_of(s2.book(o.market_symbol).unwrap(), o.order_type)[j].orders.len()
                ==> #[trigger] side_of(s2.book(o.market_symbol).unwrap(), o.order_type)[j].orders[k].order_id != id
        },
{
    if let Run::Done(s2, _) = spec_cancel_order(s, command_id, user, order_id, now) {
        let id = spec_parse_order_id(order_id).unwrap();
        let oi = order_index(s.orders, id).unwrap();
        let o = s.orders[oi];
        assert(s.order(id) == Some(o));
        let bki = book_index(s.books, o.market_symbol).unwrap();
        let mb = s.books[bki];
        let bk = |x: MarketBookModel| x.symbol == o.market_symbol;
        crate::memory::lemma_first_index_range(s.books, bk);
        assert(crate::memory::book_wf(mb.book));
        lemma_removed_at_price(side_of(mb.book, o.order_type), o.price, id);
        let nb = spec_remove_from_book(mb.book, o.order_type, o.price, id)->Ok_0;
        lemma_first_index_update(s.books, bk, bki, MarketBookModel { book: nb, ..mb });
        assert(s2.books == s.books.update(bki, MarketBookModel { book: nb, ..mb }));
        assert(s2.book(o.market_symbol) == Some(nb));
    }
}

} // verus!
