//! How ledger intents account for balance changes: the amounts of every
//! balance after a command are the amounts before it moved by the deltas
//! of the intents the command returned.
use vstd::prelude::*;
use crate::memory::{balance_index, first_index, is_first, lemma_first_index_found};
use crate::helper::match_order::{lemma_first_index_push, lemma_first_index_update};
use crate::commands::apply_command::Run;
use crate::commands::credit_balance::{balances_with_row, spec_credit_balance};
use crate::helper::settle::{spec_credit_available, spec_debit_locked, spec_settle_fill, spec_trade_intent, fits_i64};
use crate::helper::quote_notional::spec_quote_notional;
use crate::memory::StateModel;
use crate::types::{Balance, LedgerEntryType, LedgerIntent};

verus! {

/// Available amount of `user` in `asset` (zero without a balance row).
pub open spec fn avail_of(bs: Seq<Balance>, user: u128, asset: u128) -> int {
    match balance_index(bs, user, asset) {
        Some(i) => bs[i].available as int,
        None => 0,
    }
}

/// Locked amount of `user` in `asset` (zero without a balance row).
pub open spec fn locked_of(bs: Seq<Balance>, user: u128, asset: u128) -> int {
    match balance_index(bs, user, asset) {
        Some(i) => bs[i].locked as int,
        None => 0,
    }
}

pub open spec fn has_row(bs: Seq<Balance>, user: u128, asset: u128) -> bool {
    balance_index(bs, user, asset) is Some
}

/// Sum of the available deltas of the intents about `user` in `asset`.
pub open spec fn avail_delta(its: Seq<LedgerIntent>, user: u128, asset: u128) -> int
    decreases its.len(),
{
    if its.len() == 0 {
        0
    } else {
        avail_delta(its.drop_last(), user, asset) + if its.last().user_id == user && its.last().asset_id == asset {
            its.last().available_delta as int
        } else {
            0
        }
    }
}

/// Sum of the locked deltas of the intents about `user` in `asset`.
pub open spec fn locked_delta(its: Seq<LedgerIntent>, user: u128, asset: u128) -> int
    decreases its.len(),
{
    if its.len() == 0 {
        0
    } else {
        locked_delta(its.drop_last(), user, asset) + if its.last().user_id == user && its.last().asset_id == asset {
            its.last().locked_delta as int
        } else {
            0
        }
    }
}

/// `after` is `before` moved by the deltas of `its`: every amount changed
/// by exactly the intents about it, no balance row disappeared, and every
/// intent names a balance row of `after`.
pub open spec fn moved_by(before: Seq<Balance>, after: Seq<Balance>, its: Seq<LedgerIntent>) -> bool {
    &&& forall|u: u128, a: u128| #[trigger] avail_of(after, u, a) == avail_of(before, u, a) + avail_delta(its, u, a)
    &&& forall|u: u128, a: u128| #[trigger] locked_of(after, u, a) == locked_of(before, u, a) + locked_delta(its, u, a)
    &&& forall|u: u128, a: u128| has_row(before, u, a) ==> #[trigger] has_row(after, u, a)
    &&& forall|k: int| 0 <= k < its.len() ==> #[trigger] has_row(after, its[k].user_id, its[k].asset_id)
}

pub proof fn lemma_delta_append(x: Seq<LedgerIntent>, y: Seq<LedgerIntent>, u: u128, a: u128)
    ensures
        avail_delta(x + y, u, a) == avail_delta(x, u, a) + avail_delta(y, u, a),
        locked_delta(x + y, u, a) == locked_delta(x, u, a) + locked_delta(y, u, a),
    decreases y.len(),
{
    if y.len() == 0 {
        assert(x + y =~= x);
    } else {
        lemma_delta_append(x, y.drop_last(), u, a);
        assert((x + y).drop_last() =~= x + y.drop_last());
        assert((x + y).last() == y.last());
    }
}

pub proof fn lemma_moved_refl(b: Seq<Balance>)
    ensures
        moved_by(b, b, Seq::empty()),
{
    assert forall|u: u128, a: u128| #[trigger] avail_of(b, u, a) == avail_of(b, u, a) + avail_delta(Seq::empty(), u, a) by {}
    assert forall|u: u128, a: u128| #[trigger] locked_of(b, u, a) == locked_of(b, u, a) + locked_delta(Seq::empty(), u, a) by {}
}

pub proof fn lemma_moved_trans(b0: Seq<Balance>, b1: Seq<Balance>, b2: Seq<Balance>, x: Seq<LedgerIntent>, y: Seq<LedgerIntent>)
    requires
        moved_by(b0, b1, x),
        moved_by(b1, b2, y),
    ensures
        moved_by(b0, b2, x + y),
{
    assert forall|u: u128, a: u128| #[trigger] avail_of(b2, u, a) == avail_of(b0, u, a) + avail_delta(x + y, u, a) by {
        lemma_delta_append(x, y, u, a);
        assert(avail_of(b1, u, a) == avail_of(b0, u, a) + avail_delta(x, u, a));
        assert(avail_of(b2, u, a) == avail_of(b1, u, a) + avail_delta(y, u, a));
    }
    assert forall|u: u128, a: u128| #[trigger] locked_of(b2, u, a) == locked_of(b0, u, a) + locked_delta(x + y, u, a) by {
        lemma_delta_append(x, y, u, a);
        assert(locked_of(b1, u, a) == locked_of(b0, u, a) + locked_delta(x, u, a));
        assert(locked_of(b2, u, a) == locked_of(b1, u, a) + locked_delta(y, u, a));
    }
    assert forall|u: u128, a: u128| has_row(b0, u, a) implies #[trigger] has_row(b2, u, a) by {
        assert(has_row(b1, u, a));
    }
    assert forall|k: int| 0 <= k < (x + y).len() implies #[trigger] has_row(b2, (x + y)[k].user_id, (x + y)[k].asset_id) by {
        if k < x.len() {
            assert((x + y)[k] == x[k]);
            assert(has_row(b1, x[k].user_id, x[k].asset_id));
        } else {
            assert((x + y)[k] == y[k - x.len()]);
        }
    }
}

/// Replacing the first row of a key by a row of the same key changes the
/// amounts of that key only.
pub proof fn lemma_update_row(bs: Seq<Balance>, i: int, nb: Balance)
    requires
        0 <= i < bs.len(),
        balance_index(bs, bs[i].user_id, bs[i].asset_id) == Some(i),
        nb.user_id == bs[i].user_id,
        nb.asset_id == bs[i].asset_id,
    ensures
        forall|u: u128, a: u128| #[trigger] avail_of(bs.update(i, nb), u, a) == if u == nb.user_id && a == nb.asset_id {
            nb.available as int
        } else {
            avail_of(bs, u, a)
        },
        forall|u: u128, a: u128| #[trigger] locked_of(bs.update(i, nb), u, a) == if u == nb.user_id && a == nb.asset_id {
            nb.locked as int
        } else {
            locked_of(bs, u, a)
        },
        forall|u: u128, a: u128| #[trigger] has_row(bs.update(i, nb), u, a) == has_row(bs, u, a),
{
    let nbs = bs.update(i, nb);
    assert forall|u: u128, a: u128| #[trigger] balance_index(nbs, u, a) == balance_index(bs, u, a) by {
        lemma_first_index_update(bs, |b: Balance| b.user_id == u && b.asset_id == a, i, nb);
    }
    assert forall|u: u128, a: u128| !(u == nb.user_id && a == nb.asset_id) && balance_index(bs, u, a) is Some
        implies balance_index(bs, u, a) != Some(i) by {
        let p = |b: Balance| b.user_id == u && b.asset_id == a;
        let k = balance_index(bs, u, a).unwrap();
        assert(is_first(bs, p, k));
    }
    assert forall|u: u128, a: u128| #[trigger] avail_of(nbs, u, a) == if u == nb.user_id && a == nb.asset_id {
        nb.available as int
    } else {
        avail_of(bs, u, a)
    } by {
        assert(balance_index(nbs, u, a) == balance_index(bs, u, a));
    }
    assert forall|u: u128, a: u128| #[trigger] locked_of(nbs, u, a) == if u == nb.user_id && a == nb.asset_id {
        nb.locked as int
    } else {
        locked_of(bs, u, a)
    } by {
        assert(balance_index(nbs, u, a) == balance_index(bs, u, a));
    }
    assert forall|u: u128, a: u128| #[trigger] has_row(nbs, u, a) == has_row(bs, u, a) by {
        assert(balance_index(nbs, u, a) == balance_index(bs, u, a));
    }
}

/// Adding a row for a key that had none changes the amounts of that key only.
pub proof fn lemma_push_row(bs: Seq<Balance>, nb: Balance)
    requires
        balance_index(bs, nb.user_id, nb.asset_id) is None,
    ensures
        balance_index(bs.push(nb), nb.user_id, nb.asset_id) == Some(bs.len() as int),
        forall|u: u128, a: u128| #[trigger] avail_of(bs.push(nb), u, a) == if u == nb.user_id && a == nb.asset_id {
            nb.available as int
        } else {
            avail_of(bs, u, a)
        },
        forall|u: u128, a: u128| #[trigger] locked_of(bs.push(nb), u, a) == if u == nb.user_id && a == nb.asset_id {
            nb.locked as int
        } else {
            locked_of(bs, u, a)
        },
        forall|u: u128, a: u128| has_row(bs, u, a) ==> #[trigger] has_row(bs.push(nb), u, a),
{
    let nbs = bs.push(nb);
    lemma_first_index_push(bs, |b: Balance| b.user_id == nb.user_id && b.asset_id == nb.asset_id, nb);
    assert forall|u: u128, a: u128| !(u == nb.user_id && a == nb.asset_id)
        implies #[trigger] balance_index(nbs, u, a) == balance_index(bs, u, a) by {
        let p = |b: Balance| b.user_id == u && b.asset_id == a;
        lemma_first_index_push(bs, p, nb);
        if balance_index(bs, u, a) is None {
            if let Some(k) = balance_index(nbs, u, a) {
                assert(is_first(nbs, p, k));
                if k < bs.len() {
                    assert(nbs[k] == bs[k]);
                    crate::helper::match_order::lemma_some_first(bs, p, k);
                }
            }
        }
    }
    assert forall|u: u128, a: u128| has_row(bs, u, a) implies #[trigger] has_row(nbs, u, a) by {
        lemma_first_index_push(bs, |b: Balance| b.user_id == u && b.asset_id == a, nb);
    }
    assert forall|u: u128, a: u128| #[trigger] avail_of(nbs, u, a) == if u == nb.user_id && a == nb.asset_id {
        nb.available as int
    } else {
        avail_of(bs, u, a)
    } by {
        if !(u == nb.user_id && a == nb.asset_id) {
            assert(balance_index(nbs, u, a) == balance_index(bs, u, a));
            if let Some(k) = balance_index(bs, u, a) {
                assert(nbs[k] == bs[k]);
            }
        }
    }
    assert forall|u: u128, a: u128| #[trigger] locked_of(nbs, u, a) == if u == nb.user_id && a == nb.asset_id {
        nb.locked as int
    } else {
        locked_of(bs, u, a)
    } by {
        if !(u == nb.user_id && a == nb.asset_id) {
            assert(balance_index(nbs, u, a) == balance_index(bs, u, a));
            if let Some(k) = balance_index(bs, u, a) {
                assert(nbs[k] == bs[k]);
            }
        }
    }
}

/// A single intent moving the first row of its key from `bs[i]` to `nb`.
pub proof fn lemma_single_move(bs: Seq<Balance>, i: int, nb: Balance, it: LedgerIntent)
    requires
        0 <= i < bs.len(),
        balance_index(bs, bs[i].user_id, bs[i].asset_id) == Some(i),
        nb.user_id == bs[i].user_id,
        nb.asset_id == bs[i].asset_id,
        it.user_id == nb.user_id,
        it.asset_id == nb.asset_id,
        nb.available == bs[i].available + it.available_delta,
        nb.locked == bs[i].locked + it.locked_delta,
    ensures
        moved_by(bs, bs.update(i, nb), seq![it]),
{
    lemma_update_row(bs, i, nb);
    let s = seq![it];
    assert(s.drop_last() =~= Seq::<LedgerIntent>::empty());
    assert forall|u: u128, a: u128| #[trigger] avail_of(bs.update(i, nb), u, a) == avail_of(bs, u, a) + avail_delta(s, u, a) by {
        assert(avail_delta(s, u, a) == avail_delta(s.drop_last(), u, a) + if s.last().user_id == u && s.last().asset_id == a {
            s.last().available_delta as int
        } else {
            0
        });
    }
    assert forall|u: u128, a: u128| #[trigger] locked_of(bs.update(i, nb), u, a) == locked_of(bs, u, a) + locked_delta(s, u, a) by {
        assert(locked_delta(s, u, a) == locked_delta(s.drop_last(), u, a) + if s.last().user_id == u && s.last().asset_id == a {
            s.last().locked_delta as int
        } else {
            0
        });
    }
    assert forall|k: int| 0 <= k < s.len() implies #[trigger] has_row(bs.update(i, nb), s[k].user_id, s[k].asset_id) by {
        assert(has_row(bs, nb.user_id, nb.asset_id));
    }
}

/// A bare balance movement, used to account for steps that make no intent
/// of their own.
pub open spec fn movement(user: u128, asset: u128, available_delta: i64, locked_delta: i64) -> LedgerIntent {
    LedgerIntent {
        command_id: 0,
        sequence: 0,
        user_id: user,
        asset_id: asset,
        entry_type: LedgerEntryType::Trade,
        available_delta,
        locked_delta,
        available_after: 0,
        locked_after: 0,
        reference_id: None,
        reference_type: None,
    }
}

/// Two intent sequences with the same deltas for every balance move the
/// balances alike.
pub proof fn lemma_moved_same_deltas(b0: Seq<Balance>, b1: Seq<Balance>, x: Seq<LedgerIntent>, y: Seq<LedgerIntent>)
    requires
        moved_by(b0, b1, x),
        forall|u: u128, a: u128| #[trigger] avail_delta(y, u, a) == avail_delta(x, u, a),
        forall|u: u128, a: u128| #[trigger] locked_delta(y, u, a) == locked_delta(x, u, a),
        forall|k: int| 0 <= k < y.len() ==> #[trigger] has_row(b1, y[k].user_id, y[k].asset_id),
    ensures
        moved_by(b0, b1, y),
{
    assert forall|u: u128, a: u128| #[trigger] avail_of(b1, u, a) == avail_of(b0, u, a) + avail_delta(y, u, a) by {
        assert(avail_delta(y, u, a) == avail_delta(x, u, a));
    }
    assert forall|u: u128, a: u128| #[trigger] locked_of(b1, u, a) == locked_of(b0, u, a) + locked_delta(y, u, a) by {
        assert(locked_delta(y, u, a) == locked_delta(x, u, a));
    }
}

pub proof fn lemma_delta_single(it: LedgerIntent, u: u128, a: u128)
    ensures
        avail_delta(seq![it], u, a) == if it.user_id == u && it.asset_id == a { it.available_delta as int } else { 0 },
        locked_delta(seq![it], u, a) == if it.user_id == u && it.asset_id == a { it.locked_delta as int } else { 0 },
{
    assert(seq![it].drop_last() =~= Seq::<LedgerIntent>::empty());
    assert(avail_delta(Seq::<LedgerIntent>::empty(), u, a) == 0);
    assert(locked_delta(Seq::<LedgerIntent>::empty(), u, a) == 0);
}

/// The row of a key in `balances_with_row` is the first row of that key,
/// and creating it moves nothing.
pub proof fn lemma_balances_with_row(bs: Seq<Balance>, user: u128, asset: u128, now: i64)
    ensures
        ({
            let (nbs, i) = balances_with_row(bs, user, asset, now);
            &&& 0 <= i < nbs.len()
            &&& balance_index(nbs, user, asset) == Some(i)
            &&& nbs[i].user_id == user && nbs[i].asset_id == asset
            &&& moved_by(bs, nbs, Seq::empty())
        }),
{
    let (nbs, i) = balances_with_row(bs, user, asset, now);
    match balance_index(bs, user, asset) {
        Some(k) => {
            let p = |b: Balance| b.user_id == user && b.asset_id == asset;
            assert(is_first(bs, p, k));
            lemma_moved_refl(bs);
        },
        None => {
            let z = Balance { user_id: user, asset_id: asset, available: 0, locked: 0, updated_at: now };
            lemma_push_row(bs, z);
            assert forall|u: u128, a: u128| #[trigger] avail_of(nbs, u, a) == avail_of(bs, u, a) + avail_delta(Seq::empty(), u, a) by {}
            assert forall|u: u128, a: u128| #[trigger] locked_of(nbs, u, a) == locked_of(bs, u, a) + locked_delta(Seq::empty(), u, a) by {}
        },
    }
}

/// A first row of a key found by `balance_index`.
pub proof fn lemma_found_row(bs: Seq<Balance>, user: u128, asset: u128)
    ensures
        balance_index(bs, user, asset) matches Some(i) ==> {
            &&& 0 <= i < bs.len()
            &&& bs[i].user_id == user && bs[i].asset_id == asset
            &&& balance_index(bs, bs[i].user_id, bs[i].asset_id) == Some(i)
        },
{
    if let Some(i) = balance_index(bs, user, asset) {
        let p = |b: Balance| b.user_id == user && b.asset_id == asset;
        assert(is_first(bs, p, i));
    }
}

/// A credit moves the balances by its deposit intent.
pub proof fn lemma_credit_moves(s: StateModel, command_id: u128, user: u128, asset: u128, amount: i64, now: i64)
    ensures
        spec_credit_balance(s, command_id, user, asset, amount, now) matches (s1, Ok(it)) ==> moved_by(s.balances, s1.balances, seq![it]),
{
    if let (s1, Ok(it)) = spec_credit_balance(s, command_id, user, asset, amount, now) {
        lemma_balances_with_row(s.balances, user, asset, now);
        let (bs, i) = balances_with_row(s.balances, user, asset, now);
        let b = bs[i];
        let nb = Balance { available: (b.available + amount) as i64, updated_at: now, ..b };
        lemma_single_move(bs, i, nb, it);
        lemma_moved_trans(s.balances, bs, bs.update(i, nb), Seq::empty(), seq![it]);
        assert(Seq::<LedgerIntent>::empty() + seq![it] =~= seq![it]);
    }
}

/// A debit of locked funds is a movement of `-amount` locked.
pub proof fn lemma_debit_moves(s: StateModel, user: u128, asset: u128, amount: i64, now: i64)
    requires
        amount > i64::MIN,
    ensures
        spec_debit_locked(s, user, asset, amount, now) matches Run::Done(s2, _) ==> {
            &&& moved_by(s.balances, s2.balances, seq![movement(user, asset, 0, (-amount) as i64)])
            &&& s2 == (StateModel { balances: s2.balances, ..s })
        },
{
    lemma_found_row(s.balances, user, asset);
    if let Run::Done(s2, _) = spec_debit_locked(s, user, asset, amount, now) {
        let i = balance_index(s.balances, user, asset).unwrap();
        let b = s.balances[i];
        let nb = Balance { locked: (b.locked - amount) as i64, updated_at: now, ..b };
        lemma_single_move(s.balances, i, nb, movement(user, asset, 0, (-amount) as i64));
    }
}

/// A credit of available funds is a movement of `amount` available.
pub proof fn lemma_credit_available_moves(s: StateModel, user: u128, asset: u128, amount: i64, now: i64)
    ensures
        spec_credit_available(s, user, asset, amount, now) matches Run::Done(s2, _) ==> {
            &&& moved_by(s.balances, s2.balances, seq![movement(user, asset, amount, 0)])
            &&& s2 == (StateModel { balances: s2.balances, ..s })
        },
{
    if let Run::Done(s2, _) = spec_credit_available(s, user, asset, amount, now) {
        lemma_balances_with_row(s.balances, user, asset, now);
        let (bs, i) = balances_with_row(s.balances, user, asset, now);
        let b = bs[i];
        let nb = Balance { available: (b.available + amount) as i64, updated_at: now, ..b };
        let m = movement(user, asset, amount, 0);
        lemma_single_move(bs, i, nb, m);
        lemma_moved_trans(s.balances, bs, bs.update(i, nb), Seq::empty(), seq![m]);
        assert(Seq::<LedgerIntent>::empty() + seq![m] =~= seq![m]);
    }
}

/// A trade intent reports an existing balance of its key.
pub proof fn lemma_trade_intent_row(s: StateModel, command_id: u128, sequence: i32, trade_id: u128, user: u128, asset: u128, ad: i64, ld: i64)
    ensures
        spec_trade_intent(s, command_id, sequence, trade_id, user, asset, ad, ld) matches Run::Done(s2, (it, _)) ==> {
            &&& s2 == s
            &&& it.user_id == user && it.asset_id == asset
            &&& it.available_delta == ad && it.locked_delta == ld
            &&& has_row(s.balances, user, asset)
        },
{
    lemma_found_row(s.balances, user, asset);
}

pub proof fn lemma_delta_concat4(a: LedgerIntent, b: LedgerIntent, c: LedgerIntent, d: LedgerIntent, u: u128, x: u128)
    ensures
        avail_delta(seq![a, b, c, d], u, x) == avail_delta(seq![a], u, x) + avail_delta(seq![b], u, x)
            + avail_delta(seq![c], u, x) + avail_delta(seq![d], u, x),
        locked_delta(seq![a, b, c, d], u, x) == locked_delta(seq![a], u, x) + locked_delta(seq![b], u, x)
            + locked_delta(seq![c], u, x) + locked_delta(seq![d], u, x),
{
    assert(seq![a, b, c, d] =~= seq![a] + seq![b] + seq![c] + seq![d]);
    lemma_delta_append(seq![a] + seq![b] + seq![c], seq![d], u, x);
    lemma_delta_append(seq![a] + seq![b], seq![c], u, x);
    lemma_delta_append(seq![a], seq![b], u, x);
}

/// Settling a fill moves the balances by its four trade intents.
pub proof fn lemma_settle_moves(
    s: StateModel,
    command_id: u128,
    sequence: i32,
    trade_id: u128,
    buyer: u128,
    seller: u128,
    buyer_price: i64,
    trade_price: i64,
    qty: i64,
    base: u128,
    quote: u128,
    base_decimals: i32,
    now: i64,
)
    ensures
        spec_settle_fill(s, command_id, sequence, trade_id, buyer, seller, buyer_price, trade_price, qty, base, quote, base_decimals, now)
            matches Run::Done(s5, (its, _)) ==> moved_by(s.balances, s5.balances, its),
{
    if let Run::Done(s5, (its, _)) = spec_settle_fill(s, command_id, sequence, trade_id, buyer, seller, buyer_price, trade_price, qty, base, quote, base_decimals, now) {
        let cost = spec_quote_notional(trade_price, qty, base_decimals).unwrap();
        let reserved = spec_quote_notional(buyer_price, qty, base_decimals).unwrap();
        let refund = (reserved - cost) as i64;
        lemma_debit_moves(s, buyer, quote, reserved, now);
        let s1 = spec_debit_locked(s, buyer, quote, reserved, now)->Done_0;
        let m1 = movement(buyer, quote, 0, (-reserved) as i64);
        let m2 = movement(buyer, quote, refund, 0);
        let s2 = if refund > 0 {
            lemma_credit_available_moves(s1, buyer, quote, refund, now);
            spec_credit_available(s1, buyer, quote, refund, now)->Done_0
        } else {
            s1
        };
        if refund <= 0 {
            lemma_moved_refl(s1.balances);
        }
        let p2: Seq<LedgerIntent> = if refund > 0 { seq![m2] } else { Seq::empty() };
        assert(moved_by(s1.balances, s2.balances, p2));
        let (i1, q1) = spec_trade_intent(s2, command_id, sequence, trade_id, buyer, quote, refund, (-reserved) as i64)->Done_1;
        lemma_trade_intent_row(s2, command_id, sequence, trade_id, buyer, quote, refund, (-reserved) as i64);
        lemma_credit_available_moves(s2, buyer, base, qty, now);
        let s3 = spec_credit_available(s2, buyer, base, qty, now)->Done_0;
        let m3 = movement(buyer, base, qty, 0);
        let (i2, q2) = spec_trade_intent(s3, command_id, q1, trade_id, buyer, base, qty, 0)->Done_1;
        lemma_trade_intent_row(s3, command_id, q1, trade_id, buyer, base, qty, 0);
        lemma_debit_moves(s3, seller, base, qty, now);
        let s4 = spec_debit_locked(s3, seller, base, qty, now)->Done_0;
        let m4 = movement(seller, base, 0, (-qty) as i64);
        let (i3, q3) = spec_trade_intent(s4, command_id, q2, trade_id, seller, base, 0, (-qty) as i64)->Done_1;
        lemma_trade_intent_row(s4, command_id, q2, trade_id, seller, base, 0, (-qty) as i64);
        lemma_credit_available_moves(s4, seller, quote, cost, now);
        let s5b = spec_credit_available(s4, seller, quote, cost, now)->Done_0;
        let m5 = movement(seller, quote, cost, 0);
        let (i4, q4) = spec_trade_intent(s5b, command_id, q3, trade_id, seller, quote, cost, 0)->Done_1;
        lemma_trade_intent_row(s5b, command_id, q3, trade_id, seller, quote, cost, 0);
        assert(s5b == s5);
        assert(its == seq![i1, i2, i3, i4]);
        lemma_moved_trans(s.balances, s1.balances, s2.balances, seq![m1], p2);
        lemma_moved_trans(s.balances, s2.balances, s3.balances, seq![m1] + p2, seq![m3]);
        lemma_moved_trans(s.balances, s3.balances, s4.balances, seq![m1] + p2 + seq![m3], seq![m4]);
        lemma_moved_trans(s.balances, s4.balances, s5.balances, seq![m1] + p2 + seq![m3] + seq![m4], seq![m5]);
        let pp = seq![m1] + p2 + seq![m3] + seq![m4] + seq![m5];
        assert forall|u: u128, a: u128| #![trigger avail_delta(its, u, a)] #![trigger locked_delta(its, u, a)]
            avail_delta(its, u, a) == avail_delta(pp, u, a) && locked_delta(its, u, a) == locked_delta(pp, u, a) by {
            lemma_delta_concat4(i1, i2, i3, i4, u, a);
            lemma_delta_append(seq![m1] + p2 + seq![m3] + seq![m4], seq![m5], u, a);
            lemma_delta_append(seq![m1] + p2 + seq![m3], seq![m4], u, a);
            lemma_delta_append(seq![m1] + p2, seq![m3], u, a);
            lemma_delta_append(seq![m1], p2, u, a);
            lemma_delta_single(i1, u, a);
            lemma_delta_single(i2, u, a);
            lemma_delta_single(i3, u, a);
            lemma_delta_single(i4, u, a);
            lemma_delta_single(m1, u, a);
            lemma_delta_single(m2, u, a);
            lemma_delta_single(m3, u, a);
            lemma_delta_single(m4, u, a);
            lemma_delta_single(m5, u, a);
            assert(avail_delta(Seq::<LedgerIntent>::empty(), u, a) == 0);
            assert(locked_delta(Seq::<LedgerIntent>::empty(), u, a) == 0);
        }
        assert forall|k: int| 0 <= k < its.len() implies #[trigger] has_row(s5.balances, its[k].user_id, its[k].asset_id) by {
            assert(has_row(s2.balances, buyer, quote));
            assert(has_row(s3.balances, buyer, quote));
            assert(has_row(s4.balances, buyer, quote));
            assert(has_row(s3.balances, buyer, base));
            assert(has_row(s4.balances, buyer, base));
            assert(has_row(s4.balances, seller, base));
        }
        lemma_moved_same_deltas(s.balances, s5.balances, pp, its);
    }
}

/// The amount `x` when the key `(u, a)` is `(user, asset)`, zero otherwise.
pub open spec fn at_key(u: u128, a: u128, user: u128, asset: u128, x: int) -> int {
    if u == user && a == asset { x } else { 0 }
}

/// What settling a fill does to the available amount of `(u, a)`: the
/// buyer gets back the part of its reservation the trade did not cost and
/// receives the base quantity; the seller receives the cost.
pub open spec fn settle_available_change(
    u: u128, a: u128, buyer: u128, seller: u128, base: u128, quote: u128, reserved: int, cost: int, qty: int,
) -> int {
    at_key(u, a, buyer, quote, reserved - cost) + at_key(u, a, buyer, base, qty) + at_key(u, a, seller, quote, cost)
}

/// What settling a fill does to the locked amount of `(u, a)`: the buyer's
/// reservation of the quote and the seller's reservation of the base are
/// released.
pub open spec fn settle_locked_change(
    u: u128, a: u128, buyer: u128, seller: u128, base: u128, quote: u128, reserved: int, qty: int,
) -> int {
    -at_key(u, a, buyer, quote, reserved) - at_key(u, a, seller, base, qty)
}

/// The net effect of settling a fill on every balance: with `cost` the
/// notional of the fill at the trade price and `reserved` its notional at
/// the buyer's limit, every amount moves by `settle_available_change` and
/// `settle_locked_change`, and the quote and base that change hands sum to
/// zero over buyer and seller.
pub proof fn law_settle_net_effect(
    s: StateModel,
    command_id: u128,
    sequence: i32,
    trade_id: u128,
    buyer: u128,
    seller: u128,
    buyer_price: i64,
    trade_price: i64,
    qty: i64,
    base: u128,
    quote: u128,
    base_decimals: i32,
    now: i64,
)
    ensures
        spec_settle_fill(s, command_id, sequence, trade_id, buyer, seller, buyer_price, trade_price, qty, base, quote, base_decimals, now)
            matches Run::Done(s5, _) ==> {
            let cost = spec_quote_notional(trade_price, qty, base_decimals).unwrap() as int;
            let reserved = spec_quote_notional(buyer_price, qty, base_decimals).unwrap() as int;
            &&& forall|u: u128, a: u128| #[trigger] avail_of(s5.balances, u, a) == avail_of(s.balances, u, a)
                + settle_available_change(u, a, buyer, seller, base, quote, reserved, cost, qty as int)
            &&& forall|u: u128, a: u128| #[trigger] locked_of(s5.balances, u, a) == locked_of(s.balances, u, a)
                + settle_locked_change(u, a, buyer, seller, base, quote, reserved, qty as int)
        },
{
    lemma_settle_moves(s, command_id, sequence, trade_id, buyer, seller, buyer_price, trade_price, qty, base, quote, base_decimals, now);
    if let Run::Done(s5, (its, _)) = spec_settle_fill(s, command_id, sequence, trade_id, buyer, seller, buyer_price, trade_price, qty, base, quote, base_decimals, now) {
        let cost = spec_quote_notional(trade_price, qty, base_decimals).unwrap();
        let reserved = spec_quote_notional(buyer_price, qty, base_decimals).unwrap();
        let refund = (reserved - cost) as i64;
        let s1 = spec_debit_locked(s, buyer, quote, reserved, now)->Done_0;
        let s2 = if refund > 0 { spec_credit_available(s1, buyer, quote, refund, now)->Done_0 } else { s1 };
        lemma_trade_intent_row(s2, command_id, sequence, trade_id, buyer, quote, refund, (-reserved) as i64);
        let (i1, q1) = spec_trade_intent(s2, command_id, sequence, trade_id, buyer, quote, refund, (-reserved) as i64)->Done_1;
        let s3 = spec_credit_available(s2, buyer, base, qty, now)->Done_0;
        lemma_trade_intent_row(s3, command_id, q1, trade_id, buyer, base, qty, 0);
        let (i2, q2) = spec_trade_intent(s3, command_id, q1, trade_id, buyer, base, qty, 0)->Done_1;
        let s4 = spec_debit_locked(s3, seller, base, qty, now)->Done_0;
        lemma_trade_intent_row(s4, command_id, q2, trade_id, seller, base, 0, (-qty) as i64);
        let (i3, q3) = spec_trade_intent(s4, command_id, q2, trade_id, seller, base, 0, (-qty) as i64)->Done_1;
        let s5b = spec_credit_available(s4, seller, quote, cost, now)->Done_0;
        lemma_trade_intent_row(s5b, command_id, q3, trade_id, seller, quote, cost, 0);
        let (i4, q4) = spec_trade_intent(s5b, command_id, q3, trade_id, seller, quote, cost, 0)->Done_1;
        assert(its == seq![i1, i2, i3, i4]);
        assert forall|u: u128, a: u128| #[trigger] avail_of(s5.balances, u, a) == avail_of(s.balances, u, a)
            + settle_available_change(u, a, buyer, seller, base, quote, reserved as int, cost as int, qty as int) by {
            lemma_delta_concat4(i1, i2, i3, i4, u, a);
            lemma_delta_single(i1, u, a);
            lemma_delta_single(i2, u, a);
            lemma_delta_single(i3, u, a);
            lemma_delta_single(i4, u, a);
        }
        assert forall|u: u128, a: u128| #[trigger] locked_of(s5.balances, u, a) == locked_of(s.balances, u, a)
            + settle_locked_change(u, a, buyer, seller, base, quote, reserved as int, qty as int) by {
            lemma_delta_concat4(i1, i2, i3, i4, u, a);
            lemma_delta_single(i1, u, a);
            lemma_delta_single(i2, u, a);
            lemma_delta_single(i3, u, a);
            lemma_delta_single(i4, u, a);
        }
    }
}

} // verus!
