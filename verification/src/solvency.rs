//! Invariants of the engine state that the commands keep: resting orders
//! have positive prices and quantities and ids below the next order id,
//! orders have positive limit prices, and then no command drives a balance
//! amount below zero nor leaves anything locked in a balance it creates.
use vstd::prelude::*;
use crate::commands::apply_command::{spec_apply_command_effects, Run};
use crate::commands::cancel_order::spec_cancel_order;
use crate::helper::order_id::spec_parse_order_id;
use crate::commands::create_order::{new_order, orders_with, spec_create_order};
use crate::helper::match_order::{
    fill_parties, head_id, lemma_match_step_decreases, lemma_settle_balances_only, match_ctx, match_measure, spec_apply_fill,
    spec_fill_rest, spec_match, spec_match_step, tail_ids, MatchCtx,
};
use crate::helper::quote_notional::{lemma_pow10_positive, pow10, spec_quote_notional};
use crate::helper::settle::{spec_credit_available, spec_debit_locked, spec_settle_fill, spec_trade_intent, with_balance};
use crate::helper::take_fill::{best_position, crosses, next_fill_side, opposite_side, spec_take_next_fill, with_book, with_opposite_side};
use crate::helper::remove_from_book::{level_index, side_of, spec_remove_from_book, spec_remove_from_side, with_side, without_order};
use crate::helper::rest_on_book::{insert_position, side_with_order};
use crate::laws::spec_quote_notional_ok;
use crate::ledger::{
    avail_of, has_row, lemma_credit_available_moves, lemma_debit_moves, lemma_delta_single, lemma_found_row, lemma_update_row, locked_of,
    movement,
};
use crate::memory::{balance_index, book_index, order_index, StateModel};
use crate::types::{Balance, BookOrder, CommandModel, LevelModel, MarketBookModel, OrderType};

verus! {

/// Neither amount of the balance of `user` in `asset` is negative (a
/// missing balance counts as zero).
pub open spec fn nonneg_key(bs: Seq<Balance>, user: u128, asset: u128) -> bool {
    avail_of(bs, user, asset) >= 0 && locked_of(bs, user, asset) >= 0
}

/// Every balance without a negative amount in `before` has none in `after`.
pub open spec fn keeps_nonneg(before: Seq<Balance>, after: Seq<Balance>) -> bool {
    forall|u: u128, a: u128| nonneg_key(before, u, a) ==> #[trigger] nonneg_key(after, u, a)
}

/// Every level of the side has a positive price and every order queued on
/// it a positive quantity.
pub open spec fn side_positive(side: Seq<LevelModel>) -> bool {
    forall|j: int| 0 <= j < side.len() ==> (#[trigger] side[j]).price > 0
        && forall|k: int| 0 <= k < side[j].orders.len() ==> (#[trigger] side[j].orders[k]).quantity > 0
}

/// Both sides of every book are positive.
pub open spec fn books_positive(books: Seq<MarketBookModel>) -> bool {
    forall|i: int| 0 <= i < books.len() ==> side_positive((#[trigger] books[i]).book.bids) && side_positive(books[i].book.asks)
}

proof fn lemma_keeps_trans(b0: Seq<Balance>, b1: Seq<Balance>, b2: Seq<Balance>)
    requires
        keeps_nonneg(b0, b1),
        keeps_nonneg(b1, b2),
    ensures
        keeps_nonneg(b0, b2),
{
    assert forall|u: u128, a: u128| nonneg_key(b0, u, a) implies #[trigger] nonneg_key(b2, u, a) by {
        assert(nonneg_key(b1, u, a));
    }
}

proof fn lemma_debit_keeps(s: StateModel, user: u128, asset: u128, amount: i64, now: i64)
    requires
        amount > i64::MIN,
    ensures
        spec_debit_locked(s, user, asset, amount, now) matches Run::Done(s2, _) ==> keeps_nonneg(s.balances, s2.balances),
{
    lemma_debit_moves(s, user, asset, amount, now);
    lemma_found_row(s.balances, user, asset);
    if let Run::Done(s2, _) = spec_debit_locked(s, user, asset, amount, now) {
        let m = movement(user, asset, 0, (-amount) as i64);
        assert forall|u: u128, a: u128| nonneg_key(s.balances, u, a) implies #[trigger] nonneg_key(s2.balances, u, a) by {
            lemma_delta_single(m, u, a);
        }
    }
}

proof fn lemma_credit_keeps(s: StateModel, user: u128, asset: u128, amount: i64, now: i64)
    requires
        amount >= 0,
    ensures
        spec_credit_available(s, user, asset, amount, now) matches Run::Done(s2, _) ==> keeps_nonneg(s.balances, s2.balances),
{
    lemma_credit_available_moves(s, user, asset, amount, now);
    if let Run::Done(s2, _) = spec_credit_available(s, user, asset, amount, now) {
        let m = movement(user, asset, amount, 0);
        assert forall|u: u128, a: u128| nonneg_key(s.balances, u, a) implies #[trigger] nonneg_key(s2.balances, u, a) by {
            lemma_delta_single(m, u, a);
        }
    }
}

/// The notional of a positive price and quantity is not negative.
proof fn lemma_notional_nonneg(price: i64, qty: i64, dec: i32)
    requires
        price > 0,
        qty > 0,
    ensures
        spec_quote_notional(price, qty, dec) matches Ok(n) ==> n >= 0,
{
    if dec >= 0 {
        lemma_pow10_positive(dec as nat);
        assert(price * qty > 0) by (nonlinear_arith)
            requires
                price > 0,
                qty > 0,
        ;
        let a = price * qty;
        let d = pow10(dec as nat);
        assert(a / d >= 0) by (nonlinear_arith)
            requires
                a > 0,
                d >= 1,
        ;
    }
}

proof fn lemma_settle_keeps(
    s: StateModel,
    command_id: u128,
    sequence: i32,
    trade_id: u128,
    buyer: u128,
    seller: u128,
    buyer_price: i64,
    trade_price: i64,
    qty: i64,
    base: u128,
    quote: u128,
    base_decimals: i32,
    now: i64,
)
    requires
        trade_price > 0,
        qty > 0,
    ensures
        spec_settle_fill(s, command_id, sequence, trade_id, buyer, seller, buyer_price, trade_price, qty, base, quote, base_decimals, now)
            matches Run::Done(s5, _) ==> keeps_nonneg(s.balances, s5.balances),
{
    if let Run::Done(s5, _) = spec_settle_fill(s, command_id, sequence, trade_id, buyer, seller, buyer_price, trade_price, qty, base, quote, base_decimals, now) {
        lemma_notional_nonneg(trade_price, qty, base_decimals);
        let cost = spec_quote_notional(trade_price, qty, base_decimals).unwrap();
        let reserved = spec_quote_notional(buyer_price, qty, base_decimals).unwrap();
        let refund = (reserved - cost) as i64;
        lemma_debit_keeps(s, buyer, quote, reserved, now);
        let s1 = spec_debit_locked(s, buyer, quote, reserved, now)->Done_0;
        let s2 = if refund > 0 {
            lemma_credit_keeps(s1, buyer, quote, refund, now);
            spec_credit_available(s1, buyer, quote, refund, now)->Done_0
        } else {
            s1
        };
        assert(keeps_nonneg(s1.balances, s2.balances));
        lemma_credit_keeps(s2, buyer, base, qty, now);
        let s3 = spec_credit_available(s2, buyer, base, qty, now)->Done_0;
        lemma_debit_keeps(s3, seller, base, qty, now);
        let s4 = spec_debit_locked(s3, seller, base, qty, now)->Done_0;
        lemma_credit_keeps(s4, seller, quote, cost, now);
        let s5b = spec_credit_available(s4, seller, quote, cost, now)->Done_0;
        assert(s5b == s5);
        lemma_keeps_trans(s.balances, s1.balances, s2.balances);
        lemma_keeps_trans(s.balances, s2.balances, s3.balances);
        lemma_keeps_trans(s.balances, s3.balances, s4.balances);
        lemma_keeps_trans(s.balances, s4.balances, s5.balances);
    }
}

proof fn lemma_side_positive_remove(side: Seq<LevelModel>, i: int)
    requires
        side_positive(side),
        0 <= i < side.len(),
    ensures
        side_positive(side.remove(i)),
{
    let r = side.remove(i);
    assert forall|j: int| 0 <= j < r.len() implies (#[trigger] r[j]).price > 0
        && forall|k: int| 0 <= k < r[j].orders.len() ==> (#[trigger] r[j].orders[k]).quantity > 0 by {
        let j0 = if j < i { j } else { j + 1 };
        assert(r[j] == side[j0]);
    }
}

/// Matching a taker with something left against a positive side leaves it
/// positive, and a fill it finds has a positive quantity and price.
proof fn lemma_next_fill_side_positive(side: Seq<LevelModel>, taker: OrderType, taker_price: i64, remaining: i64, taker_user: u128)
    requires
        side_positive(side),
        remaining > 0,
    ensures
        side_positive(next_fill_side(side, taker, taker_price, remaining, taker_user).0),
        next_fill_side(side, taker, taker_price, remaining, taker_user).1 matches Some(f) ==> f.fill_qty > 0 && f.maker_price > 0,
    decreases side.len(),
{
    if side.len() > 0 {
        let bi = best_position(side, taker);
        let level = side[bi];
        if crosses(taker, level.price, taker_price) {
            if level.orders.len() == 0 {
                lemma_side_positive_remove(side, bi);
                lemma_next_fill_side_positive(side.remove(bi), taker, taker_price, remaining, taker_user);
            } else {
                let front = level.orders[0];
                if front.user_id != taker_user {
                    let q = if remaining <= front.quantity { remaining } else { front.quantity };
                    assert(front.quantity > 0);
                    let orders = if q == front.quantity {
                        level.orders.drop_first()
                    } else {
                        level.orders.update(0, BookOrder { quantity: (front.quantity - q) as i64, ..front })
                    };
                    assert forall|k: int| 0 <= k < orders.len() implies (#[trigger] orders[k]).quantity > 0 by {
                        if q == front.quantity {
                            assert(orders[k] == level.orders[k + 1]);
                        } else if k > 0 {
                            assert(orders[k] == level.orders[k]);
                        }
                    }
                    if orders.len() == 0 {
                        lemma_side_positive_remove(side, bi);
                    } else {
                        let ns = side.update(bi, LevelModel { price: level.price, orders });
                        assert forall|j: int| 0 <= j < ns.len() implies (#[trigger] ns[j]).price > 0
                            && forall|k: int| 0 <= k < ns[j].orders.len() ==> (#[trigger] ns[j].orders[k]).quantity > 0 by {
                            if j != bi {
                                assert(ns[j] == side[j]);
                            }
                        }
                    }
                }
            }
        }
    }
}

/// Looking for the next fill keeps the balances and positive books, and a
/// fill it finds has a positive quantity and price.
proof fn lemma_take_next_fill_positive(s: StateModel, taker_id: u64, symbol: Seq<char>)
    requires
        books_positive(s.books),
    ensures
        spec_take_next_fill(s, taker_id, symbol) matches Run::Done(s1, f) ==> {
            &&& s1.balances == s.balances
            &&& books_positive(s1.books)
            &&& (f matches Some(x) ==> x.fill_qty > 0 && x.maker_price > 0)
        },
{
    if let Run::Done(s1, f) = spec_take_next_fill(s, taker_id, symbol) {
        let t = s.order(taker_id).unwrap();
        if t.remaining() > 0 {
            let (sb, bi) = with_book(s, symbol);
            assert(books_positive(sb.books)) by {
                assert forall|i: int| 0 <= i < sb.books.len() implies side_positive((#[trigger] sb.books[i]).book.bids)
                    && side_positive(sb.books[i].book.asks) by {
                    if i < s.books.len() {
                        assert(sb.books[i] == s.books[i]);
                    }
                }
            }
            let mb = sb.books[bi];
            let side = opposite_side(mb.book, t.order_type);
            assert(side_positive(side));
            lemma_next_fill_side_positive(side, t.order_type, t.price, t.remaining() as i64, t.user_id);
            let nside = next_fill_side(side, t.order_type, t.price, t.remaining() as i64, t.user_id).0;
            let nmb = MarketBookModel { book: with_opposite_side(mb.book, t.order_type, nside), ..mb };
            assert(s1.books == sb.books.update(bi, nmb));
            assert forall|i: int| 0 <= i < s1.books.len() implies side_positive((#[trigger] s1.books[i]).book.bids)
                && side_positive(s1.books[i].book.asks) by {
                if i != bi {
                    assert(s1.books[i] == sb.books[i]);
                }
            }
        }
    }
}

/// A round of matching on positive books keeps every non-negative balance
/// non-negative and the books positive.
proof fn lemma_match_step_keeps(s: StateModel, ctx: MatchCtx, trade_id: u128, sequence: i32)
    requires
        books_positive(s.books),
    ensures
        spec_match_step(s, ctx, trade_id, sequence) matches Run::Done(s1, _) ==> keeps_nonneg(s.balances, s1.balances)
            && books_positive(s1.books),
{
    reveal(spec_match_step);
    lemma_take_next_fill_positive(s, ctx.taker_id, ctx.symbol);
    if let Run::Done(s1, f) = spec_take_next_fill(s, ctx.taker_id, ctx.symbol) {
        if let Some(f) = f {
            if let Some(t) = s1.order(ctx.taker_id) {
                if let Some((buyer, seller, bp)) = fill_parties(s1, t, f) {
                    lemma_settle_balances_only(s1, ctx.command_id, sequence, trade_id, buyer, seller, bp, f.maker_price, f.fill_qty,
                        ctx.base, ctx.quote, ctx.base_decimals, ctx.now);
                    lemma_settle_keeps(s1, ctx.command_id, sequence, trade_id, buyer, seller, bp, f.maker_price, f.fill_qty,
                        ctx.base, ctx.quote, ctx.base_decimals, ctx.now);
                }
            }
        }
    }
}

/// Matching on positive books keeps every non-negative balance
/// non-negative and the books positive.
proof fn lemma_match_keeps(s: StateModel, ctx: MatchCtx, ids: Seq<u128>, sequence: i32, acc: Seq<crate::types::LedgerIntent>)
    requires
        books_positive(s.books),
    ensures
        spec_match(s, ctx, ids, sequence, acc) matches Run::Done(s2, _) ==> keeps_nonneg(s.balances, s2.balances)
            && books_positive(s2.books),
    decreases match_measure(s, ctx),
{
    lemma_match_step_keeps(s, ctx, head_id(ids), sequence);
    match spec_match_step(s, ctx, head_id(ids), sequence) {
        Run::Done(s1, None) => {},
        Run::Done(s1, Some((its, q))) => {
            lemma_match_step_decreases(s, ctx, head_id(ids), sequence);
            lemma_match_keeps(s1, ctx, tail_ids(ids), q, acc + its);
            if let Run::Done(s2, _) = spec_match(s1, ctx, tail_ids(ids), q, acc + its) {
                lemma_keeps_trans(s.balances, s1.balances, s2.balances);
            }
        },
        _ => {},
    }
}

/// Placing an order never drives a balance below zero: every balance with
/// no negative amount before has none after, provided the resting orders
/// of the books have positive prices and quantities (as the engine rests
/// them).
pub proof fn law_create_keeps_balances_non_negative(
    s: StateModel,
    command_id: u128,
    user: u128,
    symbol: Seq<char>,
    t: OrderType,
    price: i64,
    qty: i64,
    now: i64,
    ids: Seq<u128>,
)
    requires
        books_positive(s.books),
    ensures
        spec_create_order(s, command_id, user, symbol, t, price, qty, now, ids) matches Run::Done(sf, _)
            ==> keeps_nonneg(s.balances, sf.balances),
{
    if let Run::Done(sf, _) = spec_create_order(s, command_id, user, symbol, t, price, qty, now, ids) {
        let m = s.markets[crate::memory::market_index(s.markets, symbol).unwrap()];
        let dec = s.assets[crate::memory::asset_index(s.assets, m.base_asset_id).unwrap()].decimals;
        let (ra, ramt) = match t {
            OrderType::Buy => (m.quote_asset_id, spec_quote_notional_ok(s, symbol, price, qty)),
            OrderType::Sell => (m.base_asset_id, qty),
        };
        lemma_notional_nonneg(price, qty, dec);
        assert(ramt >= 0);
        let bi = balance_index(s.balances, user, ra).unwrap();
        let b = s.balances[bi];
        let nb = Balance { available: (b.available - ramt) as i64, locked: (b.locked + ramt) as i64, updated_at: now, ..b };
        let id = s.next_order_id;
        let s1 = with_balance(s, bi, nb);
        let o = new_order(id, user, symbol, t, price, qty, now);
        let s2 = StateModel { orders: orders_with(s1.orders, o), next_order_id: (id + 1) as u64, ..s1 };
        let ctx = match_ctx(id, m.id, symbol, m.base_asset_id, m.quote_asset_id, dec, command_id, now);
        lemma_found_row(s.balances, user, ra);
        lemma_update_row(s.balances, bi, nb);
        assert(keeps_nonneg(s.balances, s1.balances));
        lemma_match_keeps(s2, ctx, ids, 1, Seq::empty());
        let s3 = spec_match(s2, ctx, ids, 1, Seq::empty())->Done_0;
        assert(sf.balances == s3.balances);
        lemma_keeps_trans(s.balances, s1.balances, s3.balances);
    }
}

proof fn lemma_side_with_order_positive(side: Seq<LevelModel>, price: i64, bo: BookOrder)
    requires
        side_positive(side),
        price > 0,
        bo.quantity > 0,
    ensures
        side_positive(side_with_order(side, price, bo)),
{
    let ns = side_with_order(side, price, bo);
    match level_index(side, price) {
        Some(i) => {
            crate::memory::lemma_first_index_range(side, |l: LevelModel| l.price == price);
            assert forall|j: int| 0 <= j < ns.len() implies (#[trigger] ns[j]).price > 0
                && forall|k: int| 0 <= k < ns[j].orders.len() ==> (#[trigger] ns[j].orders[k]).quantity > 0 by {
                if j != i {
                    assert(ns[j] == side[j]);
                } else {
                    assert forall|k: int| 0 <= k < ns[j].orders.len() implies (#[trigger] ns[j].orders[k]).quantity > 0 by {
                        if k < side[i].orders.len() {
                            assert(ns[j].orders[k] == side[i].orders[k]);
                        }
                    }
                }
            }
        },
        None => {
            crate::memory::lemma_first_index_range(side, |l: LevelModel| l.price > price);
            let pos = insert_position(side, price);
            assert forall|j: int| 0 <= j < ns.len() implies (#[trigger] ns[j]).price > 0
                && forall|k: int| 0 <= k < ns[j].orders.len() ==> (#[trigger] ns[j].orders[k]).quantity > 0 by {
                if j < pos {
                    assert(ns[j] == side[j]);
                } else if j > pos {
                    assert(ns[j] == side[j - 1]);
                }
            }
        },
    }
}

/// Placing an order keeps the books positive: matching only shrinks or
/// removes resting orders, and what is left of the new order rests with its
/// positive price and remaining quantity.
pub proof fn law_create_keeps_books_positive(
    s: StateModel,
    command_id: u128,
    user: u128,
    symbol: Seq<char>,
    t: OrderType,
    price: i64,
    qty: i64,
    now: i64,
    ids: Seq<u128>,
)
    requires
        books_positive(s.books),
    ensures
        spec_create_order(s, command_id, user, symbol, t, price, qty, now, ids) matches Run::Done(sf, _)
            ==> books_positive(sf.books),
{
    if let Run::Done(sf, _) = spec_create_order(s, command_id, user, symbol, t, price, qty, now, ids) {
        let m = s.markets[crate::memory::market_index(s.markets, symbol).unwrap()];
        let dec = s.assets[crate::memory::asset_index(s.assets, m.base_asset_id).unwrap()].decimals;
        let (ra, ramt) = match t {
            OrderType::Buy => (m.quote_asset_id, spec_quote_notional_ok(s, symbol, price, qty)),
            OrderType::Sell => (m.base_asset_id, qty),
        };
        let bi = balance_index(s.balances, user, ra).unwrap();
        let b = s.balances[bi];
        let nb = Balance { available: (b.available - ramt) as i64, locked: (b.locked + ramt) as i64, updated_at: now, ..b };
        let id = s.next_order_id;
        let s1 = with_balance(s, bi, nb);
        let o = new_order(id, user, symbol, t, price, qty, now);
        let s2 = StateModel { orders: orders_with(s1.orders, o), next_order_id: (id + 1) as u64, ..s1 };
        let ctx = match_ctx(id, m.id, symbol, m.base_asset_id, m.quote_asset_id, dec, command_id, now);
        lemma_match_keeps(s2, ctx, ids, 1, Seq::empty());
        let s3 = spec_match(s2, ctx, ids, 1, Seq::empty())->Done_0;
        let o3 = s3.order(id).unwrap();
        if o3.remaining() > 0 {
            let bo = BookOrder { user_id: user, order_id: id, quantity: o3.remaining() as i64 };
            let (sb, bki) = with_book(s3, symbol);
            assert(books_positive(sb.books)) by {
                assert forall|i: int| 0 <= i < sb.books.len() implies side_positive((#[trigger] sb.books[i]).book.bids)
                    && side_positive(sb.books[i].book.asks) by {
                    if i < s3.books.len() {
                        assert(sb.books[i] == s3.books[i]);
                    }
                }
            }
            let mb = sb.books[bki];
            lemma_side_with_order_positive(side_of(mb.book, t), price, bo);
            let nbk = with_side(mb.book, t, side_with_order(side_of(mb.book, t), price, bo));
            assert(sf.books == sb.books.update(bki, MarketBookModel { book: nbk, ..mb }));
            assert forall|i: int| 0 <= i < sf.books.len() implies side_positive((#[trigger] sf.books[i]).book.bids)
                && side_positive(sf.books[i].book.asks) by {
                if i != bki {
                    assert(sf.books[i] == sb.books[i]);
                }
            }
        }
    }
}

proof fn lemma_filter_positive(q: Seq<BookOrder>, pred: spec_fn(BookOrder) -> bool)
    requires
        forall|k: int| 0 <= k < q.len() ==> (#[trigger] q[k]).quantity > 0,
    ensures
        forall|k: int| 0 <= k < q.filter(pred).len() ==> (#[trigger] q.filter(pred)[k]).quantity > 0,
    decreases q.len(),
{
    reveal(Seq::filter);
    if q.len() > 0 {
        let init = q.drop_last();
        assert forall|k: int| 0 <= k < init.len() implies (#[trigger] init[k]).quantity > 0 by {
            assert(init[k] == q[k]);
        }
        lemma_filter_positive(init, pred);
        let fi = init.filter(pred);
        let f = q.filter(pred);
        assert forall|k: int| 0 <= k < f.len() implies (#[trigger] f[k]).quantity > 0 by {
            if pred(q.last()) {
                if k < fi.len() {
                    assert(f[k] == fi[k]);
                } else {
                    assert(f[k] == q.last());
                }
            } else {
                assert(f[k] == fi[k]);
            }
        }
    }
}

proof fn lemma_remove_from_side_positive(side: Seq<LevelModel>, price: i64, order_id: u64)
    requires
        side_positive(side),
    ensures
        spec_remove_from_side(side, price, order_id) matches Ok(ns) ==> side_positive(ns),
{
    if let Some(i) = level_index(side, price) {
        let q = side[i].orders;
        let pred = |o: BookOrder| o.order_id != order_id;
        lemma_filter_positive(q, pred);
        let nq = without_order(q, order_id);
        if nq.len() == 0 {
            crate::memory::lemma_first_index_range(side, |l: LevelModel| l.price == price);
            lemma_side_positive_remove(side, i);
        } else if nq.len() != q.len() {
            crate::memory::lemma_first_index_range(side, |l: LevelModel| l.price == price);
            let ns = side.update(i, LevelModel { price, orders: nq });
            assert forall|j: int| 0 <= j < ns.len() implies (#[trigger] ns[j]).price > 0
                && forall|k: int| 0 <= k < ns[j].orders.len() ==> (#[trigger] ns[j].orders[k]).quantity > 0 by {
                if j != i {
                    assert(ns[j] == side[j]);
                }
            }
        }
    }
}

/// Cancelling an order keeps the books positive: it only takes entries off
/// a level.
proof fn lemma_cancel_keeps_books_positive(s: StateModel, command_id: u128, user: u128, order_id: Seq<char>, now: i64)
    requires
        books_positive(s.books),
    ensures
        spec_cancel_order(s, command_id, user, order_id, now) matches Run::Done(s2, _) ==> books_positive(s2.books),
{
    if let Run::Done(s2, _) = spec_cancel_order(s, command_id, user, order_id, now) {
        let id = spec_parse_order_id(order_id).unwrap();
        let o = s.orders[order_index(s.orders, id).unwrap()];
        let bki = book_index(s.books, o.market_symbol).unwrap();
        let mb = s.books[bki];
        lemma_remove_from_side_positive(side_of(mb.book, o.order_type), o.price, id);
        let nb = spec_remove_from_book(mb.book, o.order_type, o.price, id)->Ok_0;
        assert(s2.books == s.books.update(bki, MarketBookModel { book: nb, ..mb }));
        crate::memory::lemma_first_index_range(s.books, |b: MarketBookModel| b.symbol == o.market_symbol);
        assert forall|i: int| 0 <= i < s2.books.len() implies side_positive((#[trigger] s2.books[i]).book.bids)
            && side_positive(s2.books[i].book.asks) by {
            if i != bki {
                assert(s2.books[i] == s.books[i]);
            }
        }
    }
}

/// The books stay positive: whatever command is applied, every resting
/// order keeps a positive price and quantity.
pub proof fn law_books_stay_positive(s: StateModel, cmd: CommandModel, now: i64, ids: Seq<u128>)
    requires
        books_positive(s.books),
    ensures
        spec_apply_command_effects(s, cmd, now, ids) matches Run::Done(s2, _) ==> books_positive(s2.books),
{
    if !s.is_processed(cmd.command_id()) {
        match cmd {
            CommandModel::CreateOrder { command_id, user_id, market_symbol, order_type, price, quantity } =>
                law_create_keeps_books_positive(s, command_id, user_id, market_symbol, order_type, price, quantity, now, ids),
            CommandModel::CancelOrder { command_id, user_id, order_id } =>
                lemma_cancel_keeps_books_positive(s, command_id, user_id, order_id, now),
            CommandModel::CreditBalance { .. } => {},
        }
    }
}

/// Every order has a positive limit price.
pub open spec fn orders_positive(os: Seq<crate::types::OrderModel>) -> bool {
    forall|i: int| 0 <= i < os.len() ==> (#[trigger] os[i]).price > 0
}

proof fn lemma_apply_fill_keeps_prices(s: StateModel, order_id: u64, qty: i64, now: i64)
    requires
        orders_positive(s.orders),
    ensures
        spec_apply_fill(s, order_id, qty, now) matches Run::Done(s1, _) ==> orders_positive(s1.orders),
{
    if let Run::Done(s1, _) = spec_apply_fill(s, order_id, qty, now) {
        let i = order_index(s.orders, order_id).unwrap();
        crate::memory::lemma_first_index_range(s.orders, |o: crate::types::OrderModel| o.id == order_id);
        assert forall|j: int| 0 <= j < s1.orders.len() implies (#[trigger] s1.orders[j]).price > 0 by {
            if j != i {
                assert(s1.orders[j] == s.orders[j]);
            }
        }
    }
}

proof fn lemma_match_step_keeps_prices(s: StateModel, ctx: MatchCtx, trade_id: u128, sequence: i32)
    requires
        orders_positive(s.orders),
    ensures
        spec_match_step(s, ctx, trade_id, sequence) matches Run::Done(s1, _) ==> orders_positive(s1.orders),
{
    reveal(spec_match_step);
    if let Run::Done(s1, Some(f)) = spec_take_next_fill(s, ctx.taker_id, ctx.symbol) {
        if let Some(t) = s1.order(ctx.taker_id) {
            if let Some((buyer, seller, bp)) = fill_parties(s1, t, f) {
                lemma_settle_balances_only(s1, ctx.command_id, sequence, trade_id, buyer, seller, bp, f.maker_price, f.fill_qty,
                    ctx.base, ctx.quote, ctx.base_decimals, ctx.now);
                if let Run::Done(s2, _) = spec_settle_fill(s1, ctx.command_id, sequence, trade_id, buyer, seller, bp, f.maker_price,
                    f.fill_qty, ctx.base, ctx.quote, ctx.base_decimals, ctx.now) {
                    lemma_apply_fill_keeps_prices(s2, f.maker_order_id, f.fill_qty, ctx.now);
                    if let Run::Done(s3, _) = spec_apply_fill(s2, f.maker_order_id, f.fill_qty, ctx.now) {
                        lemma_apply_fill_keeps_prices(s3, ctx.taker_id, f.fill_qty, ctx.now);
                    }
                }
            }
        }
    }
}

proof fn lemma_match_keeps_prices(s: StateModel, ctx: MatchCtx, ids: Seq<u128>, sequence: i32, acc: Seq<crate::types::LedgerIntent>)
    requires
        orders_positive(s.orders),
    ensures
        spec_match(s, ctx, ids, sequence, acc) matches Run::Done(s2, _) ==> orders_positive(s2.orders),
    decreases match_measure(s, ctx),
{
    lemma_match_step_keeps_prices(s, ctx, head_id(ids), sequence);
    if let Run::Done(s1, Some((its, q))) = spec_match_step(s, ctx, head_id(ids), sequence) {
        lemma_match_step_decreases(s, ctx, head_id(ids), sequence);
        lemma_match_keeps_prices(s1, ctx, tail_ids(ids), q, acc + its);
    }
}

proof fn lemma_create_keeps_prices(
    s: StateModel,
    command_id: u128,
    user: u128,
    symbol: Seq<char>,
    t: OrderType,
    price: i64,
    qty: i64,
    now: i64,
    ids: Seq<u128>,
)
    requires
        orders_positive(s.orders),
    ensures
        spec_create_order(s, command_id, user, symbol, t, price, qty, now, ids) matches Run::Done(sf, _)
            ==> orders_positive(sf.orders),
{
    if let Run::Done(sf, _) = spec_create_order(s, command_id, user, symbol, t, price, qty, now, ids) {
        let m = s.markets[crate::memory::market_index(s.markets, symbol).unwrap()];
        let dec = s.assets[crate::memory::asset_index(s.assets, m.base_asset_id).unwrap()].decimals;
        let (ra, ramt) = match t {
            OrderType::Buy => (m.quote_asset_id, spec_quote_notional_ok(s, symbol, price, qty)),
            OrderType::Sell => (m.base_asset_id, qty),
        };
        let bi = balance_index(s.balances, user, ra).unwrap();
        let b = s.balances[bi];
        let nb = Balance { available: (b.available - ramt) as i64, locked: (b.locked + ramt) as i64, updated_at: now, ..b };
        let id = s.next_order_id;
        let s1 = with_balance(s, bi, nb);
        let o = new_order(id, user, symbol, t, price, qty, now);
        let s2 = StateModel { orders: orders_with(s1.orders, o), next_order_id: (id + 1) as u64, ..s1 };
        let ctx = match_ctx(id, m.id, symbol, m.base_asset_id, m.quote_asset_id, dec, command_id, now);
        assert(orders_positive(s2.orders)) by {
            match order_index(s1.orders, id) {
                Some(i) => {
                    crate::memory::lemma_first_index_range(s1.orders, |x: crate::types::OrderModel| x.id == id);
                    assert forall|j: int| 0 <= j < s2.orders.len() implies (#[trigger] s2.orders[j]).price > 0 by {
                        if j != i {
                            assert(s2.orders[j] == s1.orders[j]);
                        }
                    }
                },
                None => {
                    assert forall|j: int| 0 <= j < s2.orders.len() implies (#[trigger] s2.orders[j]).price > 0 by {
                        if j < s1.orders.len() {
                            assert(s2.orders[j] == s1.orders[j]);
                        }
                    }
                },
            }
        }
        lemma_match_keeps_prices(s2, ctx, ids, 1, Seq::empty());
    }
}

/// Cancelling an order whose limit price is positive never drives a
/// balance below zero: it releases what the order holds in reserve.
proof fn lemma_cancel_keeps_nonneg(s: StateModel, command_id: u128, user: u128, order_id: Seq<char>, now: i64)
    requires
        orders_positive(s.orders),
    ensures
        spec_cancel_order(s, command_id, user, order_id, now) matches Run::Done(s2, _) ==> keeps_nonneg(s.balances, s2.balances)
            && orders_positive(s2.orders),
{
    if let Run::Done(s2, _) = spec_cancel_order(s, command_id, user, order_id, now) {
        let id = spec_parse_order_id(order_id).unwrap();
        let oi = order_index(s.orders, id).unwrap();
        crate::memory::lemma_first_index_range(s.orders, |x: crate::types::OrderModel| x.id == id);
        let o = s.orders[oi];
        let m = s.markets[crate::memory::market_index(s.markets, o.market_symbol).unwrap()];
        let dec = s.assets[crate::memory::asset_index(s.assets, m.base_asset_id).unwrap()].decimals;
        let (asset, amount) = crate::commands::cancel_order::reserved_by(o, m.base_asset_id, m.quote_asset_id, dec)->Ok_0;
        lemma_notional_nonneg(o.price, o.remaining() as i64, dec);
        assert(amount >= 0);
        lemma_found_row(s.balances, user, asset);
        let bi = balance_index(s.balances, user, asset).unwrap();
        let b = s.balances[bi];
        let nb = Balance { locked: (b.locked - amount) as i64, available: (b.available + amount) as i64, updated_at: now, ..b };
        lemma_update_row(s.balances, bi, nb);
        assert(s2.balances == s.balances.update(bi, nb));
        assert forall|j: int| 0 <= j < s2.orders.len() implies (#[trigger] s2.orders[j]).price > 0 by {
            if j != oi {
                assert(s2.orders[j] == s.orders[j]);
            }
        }
    }
}

/// Balances stay non-negative: whatever command is applied, a balance with
/// no negative amount before has none after, as long as the resting orders
/// have positive prices and quantities and every order a positive limit
/// price (which every command keeps: see `law_books_stay_positive` and
/// `law_prices_stay_positive`).
pub proof fn law_balances_stay_non_negative(s: StateModel, cmd: CommandModel, now: i64, ids: Seq<u128>)
    requires
        books_positive(s.books),
        orders_positive(s.orders),
    ensures
        spec_apply_command_effects(s, cmd, now, ids) matches Run::Done(s2, _) ==> keeps_nonneg(s.balances, s2.balances),
{
    if !s.is_processed(cmd.command_id()) {
        match cmd {
            CommandModel::CreateOrder { command_id, user_id, market_symbol, order_type, price, quantity } =>
                law_create_keeps_balances_non_negative(s, command_id, user_id, market_symbol, order_type, price, quantity, now, ids),
            CommandModel::CancelOrder { command_id, user_id, order_id } =>
                lemma_cancel_keeps_nonneg(s, command_id, user_id, order_id, now),
            CommandModel::CreditBalance { command_id, user_id, asset_id, amount } => {
                crate::ledger::lemma_credit_moves(s, command_id, user_id, asset_id, amount, now);
                if let Run::Done(s2, crate::commands::apply_command::OutcomeModel::Applied { intents, .. }) = spec_apply_command_effects(s, cmd, now, ids) {
                    assert(intents =~= seq![intents[0]]);
                    assert forall|u: u128, a: u128| nonneg_key(s.balances, u, a) implies #[trigger] nonneg_key(s2.balances, u, a) by {
                        lemma_delta_single(intents[0], u, a);
                    }
                }
            },
        }
    } else {
        assert forall|u: u128, a: u128| nonneg_key(s.balances, u, a) implies #[trigger] nonneg_key(s.balances, u, a) by {}
    }
}

/// Every order keeps a positive limit price, whatever command is applied.
pub proof fn law_prices_stay_positive(s: StateModel, cmd: CommandModel, now: i64, ids: Seq<u128>)
    requires
        orders_positive(s.orders),
    ensures
        spec_apply_command_effects(s, cmd, now, ids) matches Run::Done(s2, _) ==> orders_positive(s2.orders),
{
    if !s.is_processed(cmd.command_id()) {
        match cmd {
            CommandModel::CreateOrder { command_id, user_id, market_symbol, order_type, price, quantity } =>
                lemma_create_keeps_prices(s, command_id, user_id, market_symbol, order_type, price, quantity, now, ids),
            CommandModel::CancelOrder { command_id, user_id, order_id } =>
                lemma_cancel_keeps_nonneg(s, command_id, user_id, order_id, now),
            CommandModel::CreditBalance { .. } => {},
        }
    }
}

/// Every order queued on the side has an id below `n`.
pub open spec fn side_ids_below(side: Seq<LevelModel>, n: u64) -> bool {
    forall|j: int, k: int| 0 <= j < side.len() && 0 <= k < side[j].orders.len() ==> (#[trigger] side[j].orders[k]).order_id < n
}

/// Every order queued in the books has an id below `n`.
pub open spec fn books_ids_below(books: Seq<MarketBookModel>, n: u64) -> bool {
    forall|i: int| 0 <= i < books.len() ==> side_ids_below((#[trigger] books[i]).book.bids, n) && side_ids_below(books[i].book.asks, n)
}

/// No order queued on the side has id `id`.
pub open spec fn side_without(side: Seq<LevelModel>, id: u64) -> bool {
    forall|j: int, k: int| 0 <= j < side.len() && 0 <= k < side[j].orders.len() ==> (#[trigger] side[j].orders[k]).order_id != id
}

proof fn lemma_next_fill_side_ids(side: Seq<LevelModel>, taker: OrderType, taker_price: i64, remaining: i64, taker_user: u128, n: u64)
    requires
        side_ids_below(side, n),
    ensures
        side_ids_below(next_fill_side(side, taker, taker_price, remaining, taker_user).0, n),
    decreases side.len(),
{
    if side.len() > 0 {
        let bi = best_position(side, taker);
        let level = side[bi];
        if crosses(taker, level.price, taker_price) {
            if level.orders.len() == 0 {
                let r = side.remove(bi);
                assert forall|j: int, k: int| 0 <= j < r.len() && 0 <= k < r[j].orders.len() implies (#[trigger] r[j].orders[k]).order_id < n by {
                    let j0 = if j < bi { j } else { j + 1 };
                    assert(r[j] == side[j0]);
                }
                lemma_next_fill_side_ids(r, taker, taker_price, remaining, taker_user, n);
            } else {
                let front = level.orders[0];
                if front.user_id != taker_user {
                    let q = if remaining <= front.quantity { remaining } else { front.quantity };
                    let orders = if q == front.quantity {
                        level.orders.drop_first()
                    } else {
                        level.orders.update(0, BookOrder { quantity: (front.quantity - q) as i64, ..front })
                    };
                    assert(side[bi].orders[0].order_id < n);
                    assert forall|k: int| 0 <= k < orders.len() implies (#[trigger] orders[k]).order_id < n by {
                        if q == front.quantity {
                            assert(orders[k] == level.orders[k + 1]);
                            assert(side[bi].orders[k + 1].order_id < n);
                        } else if k > 0 {
                            assert(orders[k] == level.orders[k]);
                            assert(side[bi].orders[k].order_id < n);
                        }
                    }
                    let ns = next_fill_side(side, taker, taker_price, remaining, taker_user).0;
                    assert forall|j: int, k: int| 0 <= j < ns.len() && 0 <= k < ns[j].orders.len() implies (#[trigger] ns[j].orders[k]).order_id < n by {
                        if orders.len() == 0 {
                            let j0 = if j < bi { j } else { j + 1 };
                            assert(ns[j] == side[j0]);
                        } else if j != bi {
                            assert(ns[j] == side[j]);
                        }
                    }
                }
            }
        }
    }
}

proof fn lemma_match_step_keeps_ids(s: StateModel, ctx: MatchCtx, trade_id: u128, sequence: i32, n: u64)
    requires
        books_ids_below(s.books, n),
    ensures
        spec_match_step(s, ctx, trade_id, sequence) matches Run::Done(s1, _) ==> books_ids_below(s1.books, n)
            && s1.next_order_id == s.next_order_id,
{
    reveal(spec_match_step);
    if let Run::Done(s1, f) = spec_take_next_fill(s, ctx.taker_id, ctx.symbol) {
        let t = s.order(ctx.taker_id).unwrap();
        if t.remaining() > 0 {
            let (sb, bi) = with_book(s, ctx.symbol);
            assert(books_ids_below(sb.books, n)) by {
                assert forall|i: int| 0 <= i < sb.books.len() implies side_ids_below((#[trigger] sb.books[i]).book.bids, n)
                    && side_ids_below(sb.books[i].book.asks, n) by {
                    if i < s.books.len() {
                        assert(sb.books[i] == s.books[i]);
                    }
                }
            }
            let mb = sb.books[bi];
            let side = opposite_side(mb.book, t.order_type);
            lemma_next_fill_side_ids(side, t.order_type, t.price, t.remaining() as i64, t.user_id, n);
            assert forall|i: int| 0 <= i < s1.books.len() implies side_ids_below((#[trigger] s1.books[i]).book.bids, n)
                && side_ids_below(s1.books[i].book.asks, n) by {
                if i != bi {
                    assert(s1.books[i] == sb.books[i]);
                }
            }
        }
        if let Some(f) = f {
            if let Some(t1) = s1.order(ctx.taker_id) {
                if let Some((buyer, seller, bp)) = fill_parties(s1, t1, f) {
                    lemma_settle_balances_only(s1, ctx.command_id, sequence, trade_id, buyer, seller, bp, f.maker_price, f.fill_qty,
                        ctx.base, ctx.quote, ctx.base_decimals, ctx.now);
                }
            }
        }
    }
}

/// Matching keeps every queued order id below `n`: it only shrinks or
/// takes off queued orders.
pub proof fn lemma_match_keeps_ids(s: StateModel, ctx: MatchCtx, ids: Seq<u128>, sequence: i32, acc: Seq<crate::types::LedgerIntent>, n: u64)
    requires
        books_ids_below(s.books, n),
    ensures
        spec_match(s, ctx, ids, sequence, acc) matches Run::Done(s2, _) ==> books_ids_below(s2.books, n)
            && s2.next_order_id == s.next_order_id,
    decreases match_measure(s, ctx),
{
    lemma_match_step_keeps_ids(s, ctx, head_id(ids), sequence, n);
    if let Run::Done(s1, Some((its, q))) = spec_match_step(s, ctx, head_id(ids), sequence) {
        lemma_match_step_decreases(s, ctx, head_id(ids), sequence);
        lemma_match_keeps_ids(s1, ctx, tail_ids(ids), q, acc + its, n);
    }
}

/// Taking an order just queued at a price off again leaves no entry of it
/// on the side, when every other queued order has a smaller id.
pub proof fn lemma_remove_rested_leaves_none(side: Seq<LevelModel>, price: i64, bo: BookOrder)
    requires
        side_ids_below(side, bo.order_id),
    ensures
        spec_remove_from_side(side_with_order(side, price, bo), price, bo.order_id) matches Ok(ns) ==> side_without(ns, bo.order_id),
{
    let id = bo.order_id;
    let ns0 = side_with_order(side, price, bo);
    if let Ok(ns) = spec_remove_from_side(ns0, price, id) {
        let i = level_index(ns0, price).unwrap();
        crate::memory::lemma_first_index_range(ns0, |l: LevelModel| l.price == price);
        let pred = |o: BookOrder| o.order_id != id;
        let nq = without_order(ns0[i].orders, id);
        ns0[i].orders.filter_lemma(pred);
        // Every level of the side before the removal other than the one at
        // `price` holds orders of the old side only.
        assert forall|j: int, k: int| 0 <= j < ns0.len() && j != i && 0 <= k < ns0[j].orders.len()
            implies (#[trigger] ns0[j].orders[k]).order_id != id by {
            match level_index(side, price) {
                Some(i0) => {
                    assert(ns0[j] == side[j]);
                    assert(side[j].orders[k].order_id < id);
                },
                None => {
                    crate::memory::lemma_first_index_range(side, |l: LevelModel| l.price > price);
                    let pos = insert_position(side, price);
                    if j < pos {
                        assert(ns0[j] == side[j]);
                        assert(side[j].orders[k].order_id < id);
                    } else if j > pos {
                        assert(ns0[j] == side[j - 1]);
                        assert(side[j - 1].orders[k].order_id < id);
                    } else {
                        assert(level_index(ns0, price) == Some(pos)) by {
                            let p = |l: LevelModel| l.price == price;
                            assert forall|x: int| 0 <= x < side.len() implies !p(#[trigger] side[x]) by {
                                if p(side[x]) {
                                    crate::helper::match_order::lemma_some_first(side, p, x);
                                }
                            }
                            assert forall|x: int| 0 <= x < pos implies !p(#[trigger] ns0[x]) by {
                                assert(ns0[x] == side[x]);
                            }
                            assert(crate::memory::is_first(ns0, p, pos));
                            crate::memory::lemma_first_index_found(ns0, p, pos);
                        }
                    }
                },
            }
        }
        assert forall|j: int, k: int| 0 <= j < ns.len() && 0 <= k < ns[j].orders.len() implies (#[trigger] ns[j].orders[k]).order_id != id by {
            if nq.len() == 0 {
                let j0 = if j < i { j } else { j + 1 };
                assert(ns[j] == ns0[j0]);
            } else if j != i {
                assert(ns[j] == ns0[j]);
            } else {
                assert(ns[j].orders == nq);
                assert(pred(nq[k]));
            }
        }
    }
}

proof fn lemma_ids_below_weaken(books: Seq<MarketBookModel>, n: u64, m: u64)
    requires
        books_ids_below(books, n),
        n <= m,
    ensures
        books_ids_below(books, m),
{
    assert forall|i: int| 0 <= i < books.len() implies side_ids_below((#[trigger] books[i]).book.bids, m)
        && side_ids_below(books[i].book.asks, m) by {
        assert(side_ids_below(books[i].book.bids, n));
        assert(side_ids_below(books[i].book.asks, n));
    }
}

proof fn lemma_side_with_order_ids(side: Seq<LevelModel>, price: i64, bo: BookOrder, n: u64)
    requires
        side_ids_below(side, n),
        bo.order_id < n,
    ensures
        side_ids_below(side_with_order(side, price, bo), n),
{
    let ns = side_with_order(side, price, bo);
    match level_index(side, price) {
        Some(i) => {
            crate::memory::lemma_first_index_range(side, |l: LevelModel| l.price == price);
            assert forall|j: int, k: int| 0 <= j < ns.len() && 0 <= k < ns[j].orders.len() implies (#[trigger] ns[j].orders[k]).order_id < n by {
                if j != i {
                    assert(ns[j] == side[j]);
                } else if k < side[i].orders.len() {
                    assert(ns[j].orders[k] == side[i].orders[k]);
                }
            }
        },
        None => {
            crate::memory::lemma_first_index_range(side, |l: LevelModel| l.price > price);
            let pos = insert_position(side, price);
            assert forall|j: int, k: int| 0 <= j < ns.len() && 0 <= k < ns[j].orders.len() implies (#[trigger] ns[j].orders[k]).order_id < n by {
                if j < pos {
                    assert(ns[j] == side[j]);
                } else if j > pos {
                    assert(ns[j] == side[j - 1]);
                }
            }
        },
    }
}

/// Every order queued in the books keeps an id below the next one to be
/// given out, whatever command is applied: a new order gets that id and the
/// counter moves past it, and cancelling or matching only takes entries off.
pub proof fn law_queued_ids_stay_below_next(s: StateModel, cmd: CommandModel, now: i64, ids: Seq<u128>)
    requires
        books_ids_below(s.books, s.next_order_id),
    ensures
        spec_apply_command_effects(s, cmd, now, ids) matches Run::Done(s2, _) ==> books_ids_below(s2.books, s2.next_order_id),
{
    if !s.is_processed(cmd.command_id()) {
        match cmd {
            CommandModel::CreateOrder { command_id, user_id, market_symbol, order_type, price, quantity } => {
                let (user, symbol, t, qty) = (user_id, market_symbol, order_type, quantity);
                if let Run::Done(sf, _) = spec_create_order(s, command_id, user, symbol, t, price, qty, now, ids) {
                    let m = s.markets[crate::memory::market_index(s.markets, symbol).unwrap()];
                    let dec = s.assets[crate::memory::asset_index(s.assets, m.base_asset_id).unwrap()].decimals;
                    let (ra, ramt) = match t {
                        OrderType::Buy => (m.quote_asset_id, spec_quote_notional_ok(s, symbol, price, qty)),
                        OrderType::Sell => (m.base_asset_id, qty),
                    };
                    let bi = balance_index(s.balances, user, ra).unwrap();
                    let b = s.balances[bi];
                    let nb = Balance { available: (b.available - ramt) as i64, locked: (b.locked + ramt) as i64, updated_at: now, ..b };
                    let id = s.next_order_id;
                    let s1 = with_balance(s, bi, nb);
                    let o = new_order(id, user, symbol, t, price, qty, now);
                    let s2 = StateModel { orders: orders_with(s1.orders, o), next_order_id: (id + 1) as u64, ..s1 };
                    let ctx = match_ctx(id, m.id, symbol, m.base_asset_id, m.quote_asset_id, dec, command_id, now);
                    lemma_ids_below_weaken(s.books, id, (id + 1) as u64);
                    lemma_match_keeps_ids(s2, ctx, ids, 1, Seq::empty(), (id + 1) as u64);
                    let s3 = spec_match(s2, ctx, ids, 1, Seq::empty())->Done_0;
                    let o3 = s3.order(id).unwrap();
                    if o3.remaining() > 0 {
                        let bo = BookOrder { user_id: user, order_id: id, quantity: o3.remaining() as i64 };
                        let (sb, bki) = with_book(s3, symbol);
                        assert(books_ids_below(sb.books, (id + 1) as u64)) by {
                            assert forall|i: int| 0 <= i < sb.books.len() implies side_ids_below((#[trigger] sb.books[i]).book.bids, (id + 1) as u64)
                                && side_ids_below(sb.books[i].book.asks, (id + 1) as u64) by {
                                if i < s3.books.len() {
                                    assert(sb.books[i] == s3.books[i]);
                                }
                            }
                        }
                        let mb = sb.books[bki];
                        lemma_side_with_order_ids(side_of(mb.book, t), price, bo, (id + 1) as u64);
                        let nbk = with_side(mb.book, t, side_with_order(side_of(mb.book, t), price, bo));
                        assert(sf.books == sb.books.update(bki, MarketBookModel { book: nbk, ..mb }));
                        assert forall|i: int| 0 <= i < sf.books.len() implies side_ids_below((#[trigger] sf.books[i]).book.bids, (id + 1) as u64)
                            && side_ids_below(sf.books[i].book.asks, (id + 1) as u64) by {
                            if i != bki {
                                assert(sf.books[i] == sb.books[i]);
                            }
                        }
                    }
                }
            },
            CommandModel::CancelOrder { command_id, user_id, order_id } => {
                if let Run::Done(s2, _) = spec_cancel_order(s, command_id, user_id, order_id, now) {
                    let id = spec_parse_order_id(order_id).unwrap();
                    let o = s.orders[order_index(s.orders, id).unwrap()];
                    let bki = book_index(s.books, o.market_symbol).unwrap();
                    let mb = s.books[bki];
                    let side = side_of(mb.book, o.order_type);
                    let n = s.next_order_id;
                    assert(side_ids_below(side, n));
                    let ns = spec_remove_from_side(side, o.price, id)->Ok_0;
                    assert(side_ids_below(ns, n)) by {
                        let i = level_index(side, o.price).unwrap();
                        let pred = |x: BookOrder| x.order_id != id;
                        let q = side[i].orders;
                        let nq = without_order(q, id);
                        lemma_filter_ids(q, pred, n);
                        crate::memory::lemma_first_index_range(side, |l: LevelModel| l.price == o.price);
                        assert forall|j: int, k: int| 0 <= j < ns.len() && 0 <= k < ns[j].orders.len() implies (#[trigger] ns[j].orders[k]).order_id < n by {
                            if nq.len() == 0 {
                                let j0 = if j < i { j } else { j + 1 };
                                assert(ns[j] == side[j0]);
                            } else if j != i {
                                assert(ns[j] == side[j]);
                            }
                        }
                    }
                    let nb = spec_remove_from_book(mb.book, o.order_type, o.price, id)->Ok_0;
                    assert(s2.books == s.books.update(bki, MarketBookModel { book: nb, ..mb }));
                    crate::memory::lemma_first_index_range(s.books, |x: MarketBookModel| x.symbol == o.market_symbol);
                    assert forall|i: int| 0 <= i < s2.books.len() implies side_ids_below((#[trigger] s2.books[i]).book.bids, n)
                        && side_ids_below(s2.books[i].book.asks, n) by {
                        if i != bki {
                            assert(s2.books[i] == s.books[i]);
                        }
                    }
                }
            },
            CommandModel::CreditBalance { .. } => {},
        }
    }
}

proof fn lemma_filter_ids(q: Seq<BookOrder>, pred: spec_fn(BookOrder) -> bool, n: u64)
    requires
        forall|k: int| 0 <= k < q.len() ==> (#[trigger] q[k]).order_id < n,
    ensures
        forall|k: int| 0 <= k < q.filter(pred).len() ==> (#[trigger] q.filter(pred)[k]).order_id < n,
    decreases q.len(),
{
    reveal(Seq::filter);
    if q.len() > 0 {
        let init = q.drop_last();
        assert forall|k: int| 0 <= k < init.len() implies (#[trigger] init[k]).order_id < n by {
            assert(init[k] == q[k]);
        }
        lemma_filter_ids(init, pred, n);
        let fi = init.filter(pred);
        let f = q.filter(pred);
        assert forall|k: int| 0 <= k < f.len() implies (#[trigger] f[k]).order_id < n by {
            if pred(q.last()) {
                if k < fi.len() {
                    assert(f[k] == fi[k]);
                } else {
                    assert(f[k] == q.last());
                }
            } else {
                assert(f[k] == fi[k]);
            }
        }
    }
}

/// Every balance that `start` has no row for holds nothing locked in `bs`.
pub open spec fn fresh_unlocked(start: Seq<Balance>, bs: Seq<Balance>) -> bool {
    forall|u: u128, a: u128| !has_row(start, u, a) ==> #[trigger] locked_of(bs, u, a) == 0
}

proof fn lemma_debit_fresh(start: Seq<Balance>, s: StateModel, user: u128, asset: u128, amount: i64, now: i64)
    requires
        amount >= 0,
        fresh_unlocked(start, s.balances),
    ensures
        spec_debit_locked(s, user, asset, amount, now) matches Run::Done(s2, _) ==> fresh_unlocked(start, s2.balances),
{
    lemma_debit_moves(s, user, asset, amount, now);
    lemma_found_row(s.balances, user, asset);
    if let Run::Done(s2, _) = spec_debit_locked(s, user, asset, amount, now) {
        let m = movement(user, asset, 0, (-amount) as i64);
        assert forall|u: u128, a: u128| !has_row(start, u, a) implies #[trigger] locked_of(s2.balances, u, a) == 0 by {
            lemma_delta_single(m, u, a);
            assert(locked_of(s.balances, u, a) == 0);
        }
    }
}

proof fn lemma_credit_fresh(start: Seq<Balance>, s: StateModel, user: u128, asset: u128, amount: i64, now: i64)
    requires
        fresh_unlocked(start, s.balances),
    ensures
        spec_credit_available(s, user, asset, amount, now) matches Run::Done(s2, _) ==> fresh_unlocked(start, s2.balances),
{
    lemma_credit_available_moves(s, user, asset, amount, now);
    if let Run::Done(s2, _) = spec_credit_available(s, user, asset, amount, now) {
        let m = movement(user, asset, amount, 0);
        assert forall|u: u128, a: u128| !has_row(start, u, a) implies #[trigger] locked_of(s2.balances, u, a) == 0 by {
            lemma_delta_single(m, u, a);
            assert(locked_of(s.balances, u, a) == 0);
        }
    }
}

proof fn lemma_settle_fresh(
    start: Seq<Balance>,
    s: StateModel,
    command_id: u128,
    sequence: i32,
    trade_id: u128,
    buyer: u128,
    seller: u128,
    buyer_price: i64,
    trade_price: i64,
    qty: i64,
    base: u128,
    quote: u128,
    base_decimals: i32,
    now: i64,
)
    requires
        buyer_price > 0,
        qty > 0,
        fresh_unlocked(start, s.balances),
    ensures
        spec_settle_fill(s, command_id, sequence, trade_id, buyer, seller, buyer_price, trade_price, qty, base, quote, base_decimals, now)
            matches Run::Done(s5, _) ==> fresh_unlocked(start, s5.balances),
{
    if let Run::Done(s5, _) = spec_settle_fill(s, command_id, sequence, trade_id, buyer, seller, buyer_price, trade_price, qty, base, quote, base_decimals, now) {
        lemma_notional_nonneg(buyer_price, qty, base_decimals);
        let cost = spec_quote_notional(trade_price, qty, base_decimals).unwrap();
        let reserved = spec_quote_notional(buyer_price, qty, base_decimals).unwrap();
        let refund = (reserved - cost) as i64;
        lemma_debit_fresh(start, s, buyer, quote, reserved, now);
        let s1 = spec_debit_locked(s, buyer, quote, reserved, now)->Done_0;
        let s2 = if refund > 0 {
            lemma_credit_fresh(start, s1, buyer, quote, refund, now);
            spec_credit_available(s1, buyer, quote, refund, now)->Done_0
        } else {
            s1
        };
        lemma_credit_fresh(start, s2, buyer, base, qty, now);
        let s3 = spec_credit_available(s2, buyer, base, qty, now)->Done_0;
        lemma_debit_fresh(start, s3, seller, base, qty, now);
        let s4 = spec_debit_locked(s3, seller, base, qty, now)->Done_0;
        lemma_credit_fresh(start, s4, seller, quote, cost, now);
    }
}

proof fn lemma_match_step_fresh(start: Seq<Balance>, s: StateModel, ctx: MatchCtx, trade_id: u128, sequence: i32)
    requires
        orders_positive(s.orders),
        books_positive(s.books),
        fresh_unlocked(start, s.balances),
    ensures
        spec_match_step(s, ctx, trade_id, sequence) matches Run::Done(s1, _) ==> fresh_unlocked(start, s1.balances),
{
    reveal(spec_match_step);
    lemma_take_next_fill_positive(s, ctx.taker_id, ctx.symbol);
    if let Run::Done(s1, f) = spec_take_next_fill(s, ctx.taker_id, ctx.symbol) {
        assert(s1.balances == s.balances && s1.orders == s.orders);
        if let Some(f) = f {
            if let Some(t) = s1.order(ctx.taker_id) {
                if let Some((buyer, seller, bp)) = fill_parties(s1, t, f) {
                    crate::memory::lemma_first_index_range(s1.orders, |o: crate::types::OrderModel| o.id == ctx.taker_id);
                    crate::memory::lemma_first_index_range(s1.orders, |o: crate::types::OrderModel| o.id == f.maker_order_id);
                    assert(bp > 0);
                    lemma_settle_balances_only(s1, ctx.command_id, sequence, trade_id, buyer, seller, bp, f.maker_price, f.fill_qty,
                        ctx.base, ctx.quote, ctx.base_decimals, ctx.now);
                    if f.fill_qty > 0 {
                        lemma_settle_fresh(start, s1, ctx.command_id, sequence, trade_id, buyer, seller, bp, f.maker_price, f.fill_qty,
                            ctx.base, ctx.quote, ctx.base_decimals, ctx.now);
                    }
                }
            }
        }
    }
}

proof fn lemma_match_fresh(start: Seq<Balance>, s: StateModel, ctx: MatchCtx, ids: Seq<u128>, sequence: i32, acc: Seq<crate::types::LedgerIntent>)
    requires
        orders_positive(s.orders),
        books_positive(s.books),
        fresh_unlocked(start, s.balances),
    ensures
        spec_match(s, ctx, ids, sequence, acc) matches Run::Done(s2, _) ==> fresh_unlocked(start, s2.balances),
    decreases match_measure(s, ctx),
{
    lemma_match_step_fresh(start, s, ctx, head_id(ids), sequence);
    lemma_match_step_keeps(s, ctx, head_id(ids), sequence);
    lemma_match_step_keeps_prices(s, ctx, head_id(ids), sequence);
    if let Run::Done(s1, Some((its, q))) = spec_match_step(s, ctx, head_id(ids), sequence) {
        lemma_match_step_decreases(s, ctx, head_id(ids), sequence);
        lemma_match_fresh(start, s1, ctx, tail_ids(ids), q, acc + its);
    }
}

/// Placing an order leaves nothing locked in a balance it creates: a
/// balance row that did not exist before only ever receives available
/// funds, provided the resting orders have positive prices and quantities
/// and every order a positive limit price.
pub proof fn law_create_new_balances_hold_nothing_locked(
    s: StateModel,
    command_id: u128,
    user: u128,
    symbol: Seq<char>,
    t: OrderType,
    price: i64,
    qty: i64,
    now: i64,
    ids: Seq<u128>,
)
    requires
        books_positive(s.books),
        orders_positive(s.orders),
    ensures
        spec_create_order(s, command_id, user, symbol, t, price, qty, now, ids) matches Run::Done(sf, _)
            ==> fresh_unlocked(s.balances, sf.balances),
{
    if let Run::Done(sf, _) = spec_create_order(s, command_id, user, symbol, t, price, qty, now, ids) {
        let m = s.markets[crate::memory::market_index(s.markets, symbol).unwrap()];
        let dec = s.assets[crate::memory::asset_index(s.assets, m.base_asset_id).unwrap()].decimals;
        let (ra, ramt) = match t {
            OrderType::Buy => (m.quote_asset_id, spec_quote_notional_ok(s, symbol, price, qty)),
            OrderType::Sell => (m.base_asset_id, qty),
        };
        let bi = balance_index(s.balances, user, ra).unwrap();
        let b = s.balances[bi];
        let nb = Balance { available: (b.available - ramt) as i64, locked: (b.locked + ramt) as i64, updated_at: now, ..b };
        let id = s.next_order_id;
        let s1 = with_balance(s, bi, nb);
        let o = new_order(id, user, symbol, t, price, qty, now);
        let s2 = StateModel { orders: orders_with(s1.orders, o), next_order_id: (id + 1) as u64, ..s1 };
        let ctx = match_ctx(id, m.id, symbol, m.base_asset_id, m.quote_asset_id, dec, command_id, now);
        lemma_found_row(s.balances, user, ra);
        lemma_update_row(s.balances, bi, nb);
        assert(fresh_unlocked(s.balances, s1.balances)) by {
            assert forall|u: u128, a: u128| !has_row(s.balances, u, a) implies #[trigger] locked_of(s1.balances, u, a) == 0 by {
                assert(locked_of(s.balances, u, a) == 0);
            }
        }
        assert(orders_positive(s2.orders)) by {
            match order_index(s1.orders, id) {
                Some(i) => {
                    crate::memory::lemma_first_index_range(s1.orders, |x: crate::types::OrderModel| x.id == id);
                    assert forall|j: int| 0 <= j < s2.orders.len() implies (#[trigger] s2.orders[j]).price > 0 by {
                        if j != i {
                            assert(s2.orders[j] == s1.orders[j]);
                        }
                    }
                },
                None => {
                    assert forall|j: int| 0 <= j < s2.orders.len() implies (#[trigger] s2.orders[j]).price > 0 by {
                        if j < s1.orders.len() {
                            assert(s2.orders[j] == s1.orders[j]);
                        }
                    }
                },
            }
        }
        lemma_match_fresh(s.balances, s2, ctx, ids, 1, Seq::empty());
        let s3 = spec_match(s2, ctx, ids, 1, Seq::empty())->Done_0;
        assert(sf.balances == s3.balances);
    }
}

} // verus!
