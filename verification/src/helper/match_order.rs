//! Matching a new order against the book until it stops crossing.
use vstd::prelude::*;
use crate::commands::apply_command::{agrees_intents, agrees_intents_checked, ApplyError, Run};
use crate::external::{all_v4, is_v4_id, new_random_id};
use crate::helper::settle::{fits_i64, settle_fill, spec_settle_fill, spec_debit_locked, spec_credit_available, spec_trade_intent};
use crate::helper::take_fill::{
    best_position, crosses, min_i64, next_fill_side, opposite_side, spec_take_next_fill, take_next_fill, with_book,
    with_opposite_side, Fill,
};
use crate::memory::{
    book_index, find_order, first_index, is_first, lemma_first_index_found, order_index, orders_view, OrderEngineState,
    StateModel,
};
use crate::types::{BookOrder, LedgerIntent, LevelModel, MarketBookModel, Order, OrderModel, OrderStatus, OrderType, Trade};

verus! {

pub open spec fn with_order(s: StateModel, i: int, o: OrderModel) -> StateModel {
    StateModel { orders: s.orders.update(i, o), ..s }
}

/// Adding a fill of `qty` to order `order_id`: the order becomes filled
/// (stamped `now`) when nothing remains, partially filled otherwise.
pub open spec fn spec_apply_fill(s: StateModel, order_id: u64, qty: i64, now: i64) -> Run<()> {
    match order_index(s.orders, order_id) {
        None => Run::Failed(s, ApplyError::OrderNotFound),
        Some(i) => {
            let o = s.orders[i];
            let filled = o.filled_quantity + qty;
            if !fits_i64(filled) || !fits_i64(o.quantity - filled) {
                Run::Panic
            } else if o.quantity - filled == 0 {
                Run::Done(with_order(s, i, OrderModel {
                    filled_quantity: filled as i64,
                    status: OrderStatus::Filled,
                    filled_at: Some(now),
                    ..o
                }), ())
            } else {
                Run::Done(with_order(s, i, OrderModel {
                    filled_quantity: filled as i64,
                    status: OrderStatus::PartiallyFilled,
                    ..o
                }), ())
            }
        },
    }
}

/// What stays fixed while one order is matched.
pub struct MatchCtx {
    pub taker_id: u64,
    pub market_id: u128,
    pub symbol: Seq<char>,
    pub base: u128,
    pub quote: u128,
    pub base_decimals: i32,
    pub command_id: u128,
    pub now: i64,
}

/// Buyer, seller and the buyer's limit price of a fill: a buying taker pays
/// with its own reservation; a selling taker trades with a buyer whose
/// resting order must be known.
pub open spec fn fill_parties(s: StateModel, t: OrderModel, f: Fill) -> Option<(u128, u128, i64)> {
    match t.order_type {
        OrderType::Buy => Some((t.user_id, f.maker_user_id, t.price)),
        OrderType::Sell => match s.order(f.maker_order_id) {
            None => None,
            Some(m) => Some((f.maker_user_id, t.user_id, m.price)),
        },
    }
}

/// The trade a fill records.
pub open spec fn fill_trade(ctx: MatchCtx, f: Fill, trade_id: u128, buyer: u128, seller: u128) -> Trade {
    Trade {
        id: trade_id,
        market_id: ctx.market_id,
        maker_order_id: f.maker_order_id,
        taker_order_id: ctx.taker_id,
        price: f.maker_price,
        quantity: f.fill_qty,
        buyer_user_id: buyer,
        seller_user_id: seller,
        created_at: ctx.now,
    }
}

/// Carrying out a fill found in the book: settle it at the maker's price,
/// add it to both orders and record the trade under `trade_id`.
pub open spec fn spec_fill_rest(s: StateModel, ctx: MatchCtx, f: Fill, trade_id: u128, sequence: i32) -> Run<(Seq<LedgerIntent>, i32)> {
    match s.order(ctx.taker_id) {
        None => Run::Failed(s, ApplyError::OrderNotFound),
        Some(t) => match fill_parties(s, t, f) {
            None => Run::Failed(s, ApplyError::OrderNotFound),
            Some((buyer, seller, buyer_price)) => match spec_settle_fill(
                s, ctx.command_id, sequence, trade_id, buyer, seller, buyer_price, f.maker_price, f.fill_qty,
                ctx.base, ctx.quote, ctx.base_decimals, ctx.now,
            ) {
                Run::Done(s2, (its, q)) => match spec_apply_fill(s2, f.maker_order_id, f.fill_qty, ctx.now) {
                    Run::Done(s3, _) => match spec_apply_fill(s3, ctx.taker_id, f.fill_qty, ctx.now) {
                        Run::Done(s4, _) => Run::Done(
                            StateModel { trades: s4.trades.push(fill_trade(ctx, f, trade_id, buyer, seller)), ..s4 },
                            (its, q),
                        ),
                        other => other.cast(),
                    },
                    other => other.cast(),
                },
                other => other.cast(),
            },
        },
    }
}

/// One round of matching: find the next fill, and carry it out.
#[verifier::opaque]
pub open spec fn spec_match_step(s: StateModel, ctx: MatchCtx, trade_id: u128, sequence: i32) -> Run<Option<(Seq<LedgerIntent>, i32)>> {
    match spec_take_next_fill(s, ctx.taker_id, ctx.symbol) {
        Run::Done(s1, None) => Run::Done(s1, None),
        Run::Done(s1, Some(f)) => match spec_fill_rest(s1, ctx, f, trade_id, sequence) {
            Run::Done(s2, v) => Run::Done(s2, Some(v)),
            other => other.cast(),
        },
        other => other.cast(),
    }
}

/// Number of levels plus number of resting orders of a side.
pub open spec fn side_weight(side: Seq<LevelModel>) -> nat
    decreases side.len(),
{
    if side.len() == 0 {
        0
    } else {
        side_weight(side.drop_last()) + 1 + side.last().orders.len()
    }
}

/// What a round of matching decreases: the weight of the side the taker
/// trades against, plus one while the taker has something left to fill.
pub open spec fn match_measure(s: StateModel, ctx: MatchCtx) -> nat {
    match s.order(ctx.taker_id) {
        None => 0,
        Some(t) => {
            let w = match s.book(ctx.symbol) {
                Some(b) => side_weight(opposite_side(b, t.order_type)),
                None => 0,
            };
            w + if t.remaining() > 0 { 1nat } else { 0nat }
        },
    }
}

/// The first id of a stream of trade ids (0 once it runs out).
pub open spec fn head_id(ids: Seq<u128>) -> u128 {
    if ids.len() > 0 { ids[0] } else { 0 }
}

pub open spec fn tail_ids(ids: Seq<u128>) -> Seq<u128> {
    if ids.len() > 0 { ids.drop_first() } else { ids }
}

/// Matching the taker until no fill is left, using the trade ids `ids` in
/// turn, numbering intents from `sequence` and appending them to `acc`.
pub open spec fn spec_match(s: StateModel, ctx: MatchCtx, ids: Seq<u128>, sequence: i32, acc: Seq<LedgerIntent>) -> Run<(Seq<LedgerIntent>, i32)>
    decreases match_measure(s, ctx),
{
    match spec_match_step(s, ctx, head_id(ids), sequence) {
        Run::Done(s1, None) => Run::Done(s1, (acc, sequence)),
        Run::Done(s1, Some((its, q))) => {
            proof {
                lemma_match_step_decreases(s, ctx, head_id(ids), sequence);
            }
            spec_match(s1, ctx, tail_ids(ids), q, acc + its)
        },
        other => other.cast(),
    }
}

pub proof fn lemma_side_weight_remove(side: Seq<LevelModel>, i: int)
    requires
        0 <= i < side.len(),
    ensures
        side_weight(side.remove(i)) + 1 + side[i].orders.len() == side_weight(side),
    decreases side.len(),
{
    let r = side.remove(i);
    if i == side.len() - 1 {
        assert(r =~= side.drop_last());
    } else {
        lemma_side_weight_remove(side.drop_last(), i);
        assert(r.drop_last() =~= side.drop_last().remove(i));
        assert(r.last() == side.last());
    }
}

pub proof fn lemma_side_weight_update(side: Seq<LevelModel>, i: int, l: LevelModel)
    requires
        0 <= i < side.len(),
    ensures
        side_weight(side.update(i, l)) + side[i].orders.len() == side_weight(side) + l.orders.len(),
    decreases side.len(),
{
    let u = side.update(i, l);
    if i == side.len() - 1 {
        assert(u.drop_last() =~= side.drop_last());
    } else {
        lemma_side_weight_update(side.drop_last(), i, l);
        assert(u.drop_last() =~= side.drop_last().update(i, l));
    }
}

/// A fill found on a side either lowers the side's weight or uses up all
/// the taker has left.
pub proof fn lemma_next_fill_side_weight(side: Seq<LevelModel>, taker: OrderType, taker_price: i64, remaining: i64, taker_user: u128)
    ensures
        side_weight(next_fill_side(side, taker, taker_price, remaining, taker_user).0) <= side_weight(side),
        next_fill_side(side, taker, taker_price, remaining, taker_user).1 matches Some(f) ==>
            side_weight(next_fill_side(side, taker, taker_price, remaining, taker_user).0) < side_weight(side)
            || f.fill_qty == remaining,
    decreases side.len(),
{
    if side.len() > 0 {
        let bi = best_position(side, taker);
        let level = side[bi];
        lemma_side_weight_remove(side, bi);
        if crosses(taker, level.price, taker_price) && level.orders.len() == 0 {
            lemma_next_fill_side_weight(side.remove(bi), taker, taker_price, remaining, taker_user);
        } else if crosses(taker, level.price, taker_price) && level.orders[0].user_id != taker_user {
            let front = level.orders[0];
            let q = min_i64(remaining, front.quantity);
            let orders = if q == front.quantity {
                level.orders.drop_first()
            } else {
                level.orders.update(0, BookOrder { quantity: (front.quantity - q) as i64, ..front })
            };
            lemma_side_weight_update(side, bi, LevelModel { price: level.price, orders });
        }
    }
}

pub proof fn lemma_first_index_update<T>(s: Seq<T>, p: spec_fn(T) -> bool, j: int, x: T)
    requires
        0 <= j < s.len(),
        p(x) == p(s[j]),
    ensures
        first_index(s.update(j, x), p) == first_index(s, p),
{
    let u = s.update(j, x);
    assert forall|k: int| 0 <= k < s.len() implies p(#[trigger] u[k]) == p(s[k]) by {
        if k == j {
        }
    }
    if let Some(i) = first_index(s, p) {
        assert(is_first(s, p, i));
        assert(p(u[i]));
        assert forall|jj: int| 0 <= jj < i implies !p(#[trigger] u[jj]) by {
            assert(!p(s[jj]));
        }
        assert(is_first(u, p, i));
        lemma_first_index_found(u, p, i);
    } else {
        if exists|i: int| is_first(u, p, i) {
            let i = choose|i: int| is_first(u, p, i);
            assert(p(u[i]));
            assert forall|jj: int| 0 <= jj < i implies !p(#[trigger] s[jj]) by {
                assert(!p(u[jj]));
            }
            assert(is_first(s, p, i));
        }
    }
}

pub proof fn lemma_first_index_push<T>(s: Seq<T>, p: spec_fn(T) -> bool, x: T)
    ensures
        first_index(s, p) is Some ==> first_index(s.push(x), p) == first_index(s, p),
        first_index(s, p) is None && p(x) ==> first_index(s.push(x), p) == Some(s.len() as int),
{
    let u = s.push(x);
    if let Some(i) = first_index(s, p) {
        assert(is_first(s, p, i));
        assert(is_first(u, p, i));
        lemma_first_index_found(u, p, i);
    } else if p(x) {
        assert forall|k: int| 0 <= k < s.len() implies !p(#[trigger] s[k]) by {
            if p(s[k]) {
                if !(exists|i: int| is_first(s, p, i)) {
                    lemma_some_first(s, p, k);
                }
            }
        }
        assert(is_first(u, p, s.len() as int));
        lemma_first_index_found(u, p, s.len() as int);
    }
}

/// A position satisfying `p` means there is a first one.
pub proof fn lemma_some_first<T>(s: Seq<T>, p: spec_fn(T) -> bool, k: int)
    requires
        0 <= k < s.len(),
        p(s[k]),
    ensures
        exists|i: int| is_first(s, p, i),
    decreases k,
{
    if exists|j: int| 0 <= j < k && p(#[trigger] s[j]) {
        let j = choose|j: int| 0 <= j < k && p(#[trigger] s[j]);
        lemma_some_first(s, p, j);
    } else {
        assert(is_first(s, p, k));
    }
}

/// Settling a fill touches balances only.
pub proof fn lemma_settle_balances_only(
    s: StateModel,
    command_id: u128,
    sequence: i32,
    trade_id: u128,
    buyer: u128,
    seller: u128,
    buyer_price: i64,
    trade_price: i64,
    qty: i64,
    base: u128,
    quote: u128,
    base_decimals: i32,
    now: i64,
)
    ensures
        spec_settle_fill(s, command_id, sequence, trade_id, buyer, seller, buyer_price, trade_price, qty, base, quote, base_decimals, now)
            matches Run::Done(s2, _) ==> s2 == (StateModel { balances: s2.balances, ..s }),
        spec_settle_fill(s, command_id, sequence, trade_id, buyer, seller, buyer_price, trade_price, qty, base, quote, base_decimals, now)
            matches Run::Failed(s2, _) ==> s2 == (StateModel { balances: s2.balances, ..s }),
{
}

/// Applying a fill to an order keeps every order's id in place.
pub proof fn lemma_apply_fill_keeps_ids(s: StateModel, order_id: u64, qty: i64, now: i64, id: u64)
    ensures
        spec_apply_fill(s, order_id, qty, now) matches Run::Done(s2, _) ==> {
            &&& s2 == (StateModel { orders: s2.orders, ..s })
            &&& order_index(s2.orders, id) == order_index(s.orders, id)
        },
{
    if let Some(i) = order_index(s.orders, order_id) {
        let o = s.orders[i];
        assert(is_first(s.orders, |o: OrderModel| o.id == order_id, i));
        let filled = o.filled_quantity + qty;
        let no1 = OrderModel { filled_quantity: filled as i64, status: OrderStatus::Filled, filled_at: Some(now), ..o };
        let no2 = OrderModel { filled_quantity: filled as i64, status: OrderStatus::PartiallyFilled, ..o };
        lemma_first_index_update(s.orders, |o: OrderModel| o.id == id, i, no1);
        lemma_first_index_update(s.orders, |o: OrderModel| o.id == id, i, no2);
    }
}

/// Each round of matching that fills lowers `match_measure`.
pub proof fn lemma_match_step_decreases(s: StateModel, ctx: MatchCtx, trade_id: u128, sequence: i32)
    ensures
        spec_match_step(s, ctx, trade_id, sequence) matches Run::Done(s5, Some(_)) ==> match_measure(s5, ctx) < match_measure(s, ctx),
{
    reveal(spec_match_step);
    if let Run::Done(s1, Some(f)) = spec_take_next_fill(s, ctx.taker_id, ctx.symbol) {
        let t = s.order(ctx.taker_id).unwrap();
        let ti = order_index(s.orders, ctx.taker_id).unwrap();
        let (sb, bi) = with_book(s, ctx.symbol);
        let mb = sb.books[bi];
        let side = opposite_side(mb.book, t.order_type);
        let rem = t.remaining() as i64;
        lemma_next_fill_side_weight(side, t.order_type, t.price, rem, t.user_id);
        let (nside, _) = next_fill_side(side, t.order_type, t.price, rem, t.user_id);
        // the book of the market sits at `bi` before and after
        let bp = |b: MarketBookModel| b.symbol == ctx.symbol;
        if book_index(s.books, ctx.symbol) is None {
            lemma_first_index_push(s.books, bp, mb);
            assert(side =~= Seq::<LevelModel>::empty());
        }
        assert(book_index(sb.books, ctx.symbol) == Some(bi));
        let nmb = MarketBookModel { book: with_opposite_side(mb.book, t.order_type, nside), ..mb };
        lemma_first_index_update(sb.books, bp, bi, nmb);
        assert(s1.books == sb.books.update(bi, nmb));
        assert(s1.book(ctx.symbol) == Some(nmb.book));
        assert(opposite_side(nmb.book, t.order_type) == nside);
        assert(s1.orders == s.orders);
        if let Run::Done(s5, _) = spec_fill_rest(s1, ctx, f, trade_id, sequence) {
            let (buyer, seller, bp2) = fill_parties(s1, t, f).unwrap();
            lemma_settle_balances_only(s1, ctx.command_id, sequence, trade_id, buyer, seller, bp2, f.maker_price, f.fill_qty,
                ctx.base, ctx.quote, ctx.base_decimals, ctx.now);
            let s2 = spec_settle_fill(s1, ctx.command_id, sequence, trade_id, buyer, seller, bp2, f.maker_price, f.fill_qty,
                ctx.base, ctx.quote, ctx.base_decimals, ctx.now)->Done_0;
            lemma_apply_fill_keeps_ids(s2, f.maker_order_id, f.fill_qty, ctx.now, ctx.taker_id);
            let s3 = spec_apply_fill(s2, f.maker_order_id, f.fill_qty, ctx.now)->Done_0;
            lemma_apply_fill_keeps_ids(s3, ctx.taker_id, f.fill_qty, ctx.now, ctx.taker_id);
            let s4 = spec_apply_fill(s3, ctx.taker_id, f.fill_qty, ctx.now)->Done_0;
            assert(order_index(s4.orders, ctx.taker_id) == Some(ti));
            assert(s5.books == s1.books);
            let t3 = s3.orders[ti];
            let t4 = s4.orders[ti];
            assert(t4.remaining() == t3.remaining() - f.fill_qty);
            assert(t3.remaining() == t.remaining() || t3.remaining() == t.remaining() - f.fill_qty);
            assert(t4.order_type == t.order_type);
        }
    }
}

/// Adds a fill of `fill_qty` to order `order_id`.
pub fn apply_fill(state: &mut OrderEngineState, order_id: u64, fill_qty: i64, now: i64) -> (r: Result<(), ApplyError>)
    ensures
        spec_apply_fill(old(state)@, order_id, fill_qty, now).agrees_checked(final(state)@, r),
        final(state).books@ == old(state).books@,
        final(state).processed_commands@ == old(state).processed_commands@,
{
    let i = match find_order(&state.orders, order_id) {
        Some(i) => i,
        None => return Err(ApplyError::OrderNotFound),
    };
    let ghost before = state@;
    let mut o = state.orders[i].duplicate();
    let filled: i128 = o.filled_quantity as i128 + fill_qty as i128;
    if filled < i64::MIN as i128 || filled > i64::MAX as i128 {
        return Err(ApplyError::Overflow);
    }
    let left: i128 = o.quantity as i128 - filled;
    if left < i64::MIN as i128 || left > i64::MAX as i128 {
        return Err(ApplyError::Overflow);
    }
    o.filled_quantity = filled as i64;
    if o.quantity - o.filled_quantity == 0 {
        o.status = OrderStatus::Filled;
        o.filled_at = Some(now);
    } else {
        o.status = OrderStatus::PartiallyFilled;
    }
    let ghost om = o@;
    state.orders.set(i, o);
    assert(orders_view(state.orders@) =~= before.orders.update(i as int, om));
    Ok(())
}

/// The matching context of a taker order.
pub open spec fn match_ctx(
    taker_id: u64,
    market_id: u128,
    symbol: Seq<char>,
    base: u128,
    quote: u128,
    base_decimals: i32,
    command_id: u128,
    now: i64,
) -> MatchCtx {
    MatchCtx { taker_id, market_id, symbol, base, quote, base_decimals, command_id, now }
}

/// Carries out a fill found in the book, as `spec_fill_rest` says.
pub fn fill_rest(
    state: &mut OrderEngineState,
    command_id: u128,
    next_sequence: &mut i32,
    taker_order_id: u64,
    market_id: u128,
    market_symbol: &String,
    base_asset_id: u128,
    quote_asset_id: u128,
    base_decimals: i32,
    now: i64,
    fill: Fill,
    trade_id: u128,
) -> (r: Result<Vec<LedgerIntent>, ApplyError>)
    requires
        old(state).wf(),
    ensures
        final(state).wf(),
        match spec_fill_rest(old(state)@, match_ctx(taker_order_id, market_id, market_symbol@, base_asset_id, quote_asset_id,
            base_decimals, command_id, now), fill, trade_id, *old(next_sequence)) {
            Run::Done(s, (its, q)) => final(state)@ == s && r is Ok && r.unwrap()@ == its && *final(next_sequence) == q,
            Run::Failed(s, e) => final(state)@ == s && r is Err && r->Err_0 == e,
            Run::Panic => r is Err && r->Err_0 == ApplyError::Overflow,
        },
{
    let ghost ctx = match_ctx(taker_order_id, market_id, market_symbol@, base_asset_id, quote_asset_id, base_decimals, command_id, now);
    let ti = match find_order(&state.orders, taker_order_id) {
        Some(i) => i,
        None => return Err(ApplyError::OrderNotFound),
    };
    let taker_type = state.orders[ti].order_type;
    let taker_user_id = state.orders[ti].user_id;
    let taker_price = state.orders[ti].price;
    let (buyer_user_id, seller_user_id, buyer_order_price) = match taker_type {
        OrderType::Buy => (taker_user_id, fill.maker_user_id, taker_price),
        OrderType::Sell => {
            let mi = match find_order(&state.orders, fill.maker_order_id) {
                Some(i) => i,
                None => return Err(ApplyError::OrderNotFound),
            };
            (fill.maker_user_id, taker_user_id, state.orders[mi].price)
        },
    };
    let ghost s0 = state@;
    let intents = match settle_fill(
        state, command_id, next_sequence, trade_id, buyer_user_id, seller_user_id, buyer_order_price, fill.maker_price,
        fill.fill_qty, base_asset_id, quote_asset_id, base_decimals, now,
    ) {
        Ok(v) => v,
        Err(e) => {
            proof {
                lemma_settle_balances_only(s0, command_id, *old(next_sequence), trade_id, buyer_user_id, seller_user_id,
                    buyer_order_price, fill.maker_price, fill.fill_qty, base_asset_id, quote_asset_id, base_decimals, now);
            }
            return Err(e);
        },
    };
    proof {
        lemma_settle_balances_only(s0, command_id, *old(next_sequence), trade_id, buyer_user_id, seller_user_id,
            buyer_order_price, fill.maker_price, fill.fill_qty, base_asset_id, quote_asset_id, base_decimals, now);
    }
    match apply_fill(state, fill.maker_order_id, fill.fill_qty, now) {
        Ok(()) => {},
        Err(e) => return Err(e),
    }
    match apply_fill(state, taker_order_id, fill.fill_qty, now) {
        Ok(()) => {},
        Err(e) => return Err(e),
    }
    state.trades.push(Trade {
        id: trade_id,
        market_id,
        maker_order_id: fill.maker_order_id,
        taker_order_id,
        price: fill.maker_price,
        quantity: fill.fill_qty,
        buyer_user_id,
        seller_user_id,
        created_at: now,
    });
    Ok(intents)
}

/// One round of matching: the next fill, carried out under a freshly
/// drawn trade id (returned with the intents), or none.
pub fn match_round(
    state: &mut OrderEngineState,
    command_id: u128,
    next_sequence: &mut i32,
    taker_order_id: u64,
    market_id: u128,
    market_symbol: &String,
    base_asset_id: u128,
    quote_asset_id: u128,
    base_decimals: i32,
    now: i64,
) -> (r: Result<Option<(Vec<LedgerIntent>, u128)>, ApplyError>)
    requires
        old(state).wf(),
    ensures
        final(state).wf(),
        match r {
            Ok(None) => forall|tid: u128| #[trigger] spec_match_step(old(state)@, match_ctx(taker_order_id, market_id,
                market_symbol@, base_asset_id, quote_asset_id, base_decimals, command_id, now), tid, *old(next_sequence))
                == Run::<Option<(Seq<LedgerIntent>, i32)>>::Done(final(state)@, None) && *final(next_sequence) == *old(next_sequence),
            Ok(Some((its, tid))) => is_v4_id(tid) && spec_match_step(old(state)@, match_ctx(taker_order_id, market_id, market_symbol@,
                base_asset_id, quote_asset_id, base_decimals, command_id, now), tid, *old(next_sequence))
                == Run::<Option<(Seq<LedgerIntent>, i32)>>::Done(final(state)@, Some((its@, *final(next_sequence)))),
            Err(e) => exists|tid: u128| is_v4_id(tid) && (#[trigger] spec_match_step(old(state)@, match_ctx(taker_order_id, market_id,
                market_symbol@, base_asset_id, quote_asset_id, base_decimals, command_id, now), tid, *old(next_sequence))
                == Run::<Option<(Seq<LedgerIntent>, i32)>>::Failed(final(state)@, e)
                || (spec_match_step(old(state)@, match_ctx(taker_order_id, market_id, market_symbol@, base_asset_id, quote_asset_id,
                base_decimals, command_id, now), tid, *old(next_sequence)) is Panic && e == ApplyError::Overflow)),
        },
{
    let ghost ctx = match_ctx(taker_order_id, market_id, market_symbol@, base_asset_id, quote_asset_id, base_decimals, command_id, now);
    reveal(spec_match_step);
    let fill = match take_next_fill(state, taker_order_id, market_symbol) {
        Ok(Some(f)) => f,
        Ok(None) => return Ok(None),
        Err(e) => {
            assert(is_v4_id(0x4000_8000_0000_0000_0000u128)) by (bit_vector);
            let ghost w = spec_match_step(old(state)@, ctx, 0x4000_8000_0000_0000_0000u128, *old(next_sequence));
            assert(w == Run::<Option<(Seq<LedgerIntent>, i32)>>::Failed(state@, e) || (w is Panic && e == ApplyError::Overflow));
            return Err(e);
        },
    };
    let trade_id = new_random_id();
    assert(is_v4_id(trade_id));
    match fill_rest(
        state, command_id, next_sequence, taker_order_id, market_id, market_symbol, base_asset_id, quote_asset_id,
        base_decimals, now, fill, trade_id,
    ) {
        Ok(its) => Ok(Some((its, trade_id))),
        Err(e) => {
            let ghost w = spec_match_step(old(state)@, ctx, trade_id, *old(next_sequence));
            assert(w == Run::<Option<(Seq<LedgerIntent>, i32)>>::Failed(state@, e) || (w is Panic && e == ApplyError::Overflow));
            Err(e)
        },
    }
}

/// Matches the taker order against the book until it no longer crosses,
/// drawing a fresh random trade id for each fill. The result is what
/// `spec_match` gives for the trade ids that were drawn.
pub fn match_order(
    state: &mut OrderEngineState,
    command_id: u128,
    next_sequence: &mut i32,
    taker_order_id: u64,
    market_id: u128,
    market_symbol: &String,
    base_asset_id: u128,
    quote_asset_id: u128,
    base_decimals: i32,
    now: i64,
) -> (r: Result<Vec<LedgerIntent>, ApplyError>)
    requires
        old(state).wf(),
    ensures
        final(state).wf(),
        exists|ids: Seq<u128>| all_v4(ids) && agrees_intents_checked(#[trigger] spec_match(old(state)@, match_ctx(taker_order_id, market_id,
            market_symbol@, base_asset_id, quote_asset_id, base_decimals, command_id, now), ids, *old(next_sequence),
            Seq::empty()), final(state)@, r, *final(next_sequence)),
{
    let ghost ctx = match_ctx(taker_order_id, market_id, market_symbol@, base_asset_id, quote_asset_id, base_decimals, command_id, now);
    let ghost s0 = state@;
    let ghost q0 = *next_sequence;
    let ghost mut drawn: Seq<u128> = Seq::empty();
    let mut intents: Vec<LedgerIntent> = Vec::new();
    assert forall|rest: Seq<u128>| #[trigger] spec_match(s0, ctx, drawn + rest, q0, Seq::empty())
        == spec_match(state@, ctx, rest, *next_sequence, intents@) by {
        assert(drawn + rest =~= rest);
        assert(intents@ =~= Seq::<LedgerIntent>::empty());
    }
    loop
        invariant
            state.wf(),
            s0 == old(state)@,
            q0 == *old(next_sequence),
            ctx == match_ctx(taker_order_id, market_id, market_symbol@, base_asset_id, quote_asset_id, base_decimals, command_id, now),
            all_v4(drawn),
            forall|rest: Seq<u128>| #[trigger] spec_match(s0, ctx, drawn + rest, q0, Seq::empty())
                == spec_match(state@, ctx, rest, *next_sequence, intents@),
        decreases match_measure(state@, ctx),
    {
        let ghost cur = state@;
        let ghost cq = *next_sequence;
        let ghost acc = intents@;
        match match_round(
            state, command_id, next_sequence, taker_order_id, market_id, market_symbol, base_asset_id, quote_asset_id,
            base_decimals, now,
        ) {
            Ok(None) => {
                proof {
                    let e = Seq::<u128>::empty();
                    assert(spec_match_step(cur, ctx, head_id(e), cq) == Run::<Option<(Seq<LedgerIntent>, i32)>>::Done(state@, None));
                    assert(spec_match(s0, ctx, drawn + e, q0, Seq::empty()) == spec_match(cur, ctx, e, cq, acc));
                    assert(drawn + e =~= drawn);
                    assert(agrees_intents_checked(spec_match(s0, ctx, drawn, q0, Seq::empty()), state@, Ok::<Vec<LedgerIntent>, ApplyError>(intents), *next_sequence));
                }
                return Ok(intents);
            },
            Err(e) => {
                proof {
                    let tid = choose|tid: u128| is_v4_id(tid) && (#[trigger] spec_match_step(cur, ctx, tid, cq)
                        == Run::<Option<(Seq<LedgerIntent>, i32)>>::Failed(state@, e)
                        || (spec_match_step(cur, ctx, tid, cq) is Panic && e == ApplyError::Overflow));
                    let r1 = seq![tid];
                    assert(all_v4(drawn + r1)) by {
                        assert forall|i: int| 0 <= i < (drawn + r1).len() implies is_v4_id(#[trigger] (drawn + r1)[i]) by {
                            if i < drawn.len() {
                                assert((drawn + r1)[i] == drawn[i]);
                            }
                        }
                    }
                    assert(head_id(r1) == tid);
                    assert(spec_match(s0, ctx, drawn + r1, q0, Seq::empty()) == spec_match(cur, ctx, r1, cq, acc));
                    assert(agrees_intents_checked(spec_match(s0, ctx, drawn + r1, q0, Seq::empty()), state@, Err::<Vec<LedgerIntent>, ApplyError>(e), *next_sequence));
                }
                return Err(e);
            },
            Ok(Some((its, trade_id))) => {
                let mut its = its;
                let ghost its_v = its@;
                intents.append(&mut its);
                proof {
                    lemma_match_step_decreases(cur, ctx, trade_id, cq);
                    assert forall|rest: Seq<u128>| #[trigger] spec_match(s0, ctx, drawn.push(trade_id) + rest, q0, Seq::empty())
                        == spec_match(state@, ctx, rest, *next_sequence, intents@) by {
                        let r2 = seq![trade_id] + rest;
                        assert(drawn.push(trade_id) + rest =~= drawn + r2);
                        assert(head_id(r2) == trade_id);
                        assert(tail_ids(r2) =~= rest);
                        assert(spec_match(s0, ctx, drawn + r2, q0, Seq::empty()) == spec_match(cur, ctx, r2, cq, acc));
                        assert(intents@ == acc + its_v);
                    }
                    assert(all_v4(drawn.push(trade_id))) by {
                        assert forall|i: int| 0 <= i < drawn.push(trade_id).len() implies is_v4_id(#[trigger] drawn.push(trade_id)[i]) by {
                            if i < drawn.len() {
                                assert(drawn.push(trade_id)[i] == drawn[i]);
                            }
                        }
                    }
                    drawn = drawn.push(trade_id);
                }
            },
        }
    }
}

} // verus!
