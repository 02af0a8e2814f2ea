//! Finding the next resting order a taker trades with (price-time priority).
use vstd::prelude::*;
use crate::commands::apply_command::{ApplyError, Run};
use crate::helper::settle::fits_i64;
use crate::memory::{book_index, book_wf, books_view, find_book, find_order, order_index, sorted_levels, OrderEngineState, StateModel};
use crate::types::{levels_view, BookLevel, BookModel, BookOrder, LevelModel, MarketBook, MarketBookModel, OrderBook, OrderType};

verus! {

/// A match between the taker and the resting order at the front of the best
/// level.
#[derive(Clone, Copy, PartialEq, Eq, Structural, Debug)]
pub struct Fill {
    pub maker_order_id: u64,
    pub maker_user_id: u128,
    pub maker_price: i64,
    pub fill_qty: i64,
}

/// Position of the best level for a taker of this type on the opposite
/// side: the lowest ask for a buyer, the highest bid for a seller.
pub open spec fn best_position(side: Seq<LevelModel>, taker: OrderType) -> int {
    match taker {
        OrderType::Buy => 0,
        OrderType::Sell => side.len() - 1,
    }
}

/// A resting price crosses the taker's limit.
pub open spec fn crosses(taker: OrderType, maker_price: i64, taker_price: i64) -> bool {
    match taker {
        OrderType::Buy => maker_price <= taker_price,
        OrderType::Sell => maker_price >= taker_price,
    }
}

pub open spec fn min_i64(a: i64, b: i64) -> i64 {
    if a <= b { a } else { b }
}

/// Matching a taker with `remaining` quantity against the opposite side:
/// stop when the side is empty or the best price does not cross; drop an
/// empty best level and look again; stop before trading with the taker's
/// own resting order; otherwise fill the smaller of the two quantities
/// against the front order of the best level, taking that order off when it
/// is used up and the level off when it is left empty.
pub open spec fn next_fill_side(
    side: Seq<LevelModel>,
    taker: OrderType,
    taker_price: i64,
    remaining: i64,
    taker_user: u128,
) -> (Seq<LevelModel>, Option<Fill>)
    decreases side.len(),
{
    if side.len() == 0 {
        (side, None)
    } else {
        let bi = best_position(side, taker);
        let level = side[bi];
        if !crosses(taker, level.price, taker_price) {
            (side, None)
        } else if level.orders.len() == 0 {
            next_fill_side(side.remove(bi), taker, taker_price, remaining, taker_user)
        } else {
            let front = level.orders[0];
            if front.user_id == taker_user {
                (side, None)
            } else {
                let q = min_i64(remaining, front.quantity);
                let orders = if q == front.quantity {
                    level.orders.drop_first()
                } else {
                    level.orders.update(0, BookOrder { quantity: (front.quantity - q) as i64, ..front })
                };
                let nside = if orders.len() == 0 {
                    side.remove(bi)
                } else {
                    side.update(bi, LevelModel { price: level.price, orders })
                };
                (nside, Some(Fill { maker_order_id: front.order_id, maker_user_id: front.user_id, maker_price: level.price, fill_qty: q }))
            }
        }
    }
}

/// The side a taker of this type trades against.
pub open spec fn opposite_side(b: BookModel, taker: OrderType) -> Seq<LevelModel> {
    match taker {
        OrderType::Buy => b.asks,
        OrderType::Sell => b.bids,
    }
}

pub open spec fn with_opposite_side(b: BookModel, taker: OrderType, side: Seq<LevelModel>) -> BookModel {
    match taker {
        OrderType::Buy => BookModel { asks: side, ..b },
        OrderType::Sell => BookModel { bids: side, ..b },
    }
}

/// The state with a book for `symbol` (an empty one added at the end when
/// there was none), and the book's position.
pub open spec fn with_book(s: StateModel, symbol: Seq<char>) -> (StateModel, int) {
    match book_index(s.books, symbol) {
        Some(i) => (s, i),
        None => (
            StateModel {
                books: s.books.push(MarketBookModel { symbol, book: BookModel { bids: Seq::empty(), asks: Seq::empty() } }),
                ..s
            },
            s.books.len() as int,
        ),
    }
}

/// Finding the next fill for the taker order `taker_id` in the book of
/// `symbol`. The taker must exist; a taker with nothing left to fill gets
/// none; otherwise the market's book is created when missing and the
/// opposite side is matched as `next_fill_side` says.
pub open spec fn spec_take_next_fill(s: StateModel, taker_id: u64, symbol: Seq<char>) -> Run<Option<Fill>> {
    match s.order(taker_id) {
        None => Run::Failed(s, ApplyError::OrderNotFound),
        Some(t) => if !fits_i64(t.remaining()) {
            Run::Panic
        } else if t.remaining() <= 0 {
            Run::Done(s, None)
        } else {
            let (s1, bi) = with_book(s, symbol);
            let mb = s1.books[bi];
            let (nside, f) = next_fill_side(opposite_side(mb.book, t.order_type), t.order_type, t.price, t.remaining() as i64, t.user_id);
            Run::Done(
                StateModel {
                    books: s1.books.update(bi, MarketBookModel { book: with_opposite_side(mb.book, t.order_type, nside), ..mb }),
                    ..s1
                },
                f,
            )
        },
    }
}

pub proof fn lemma_next_fill_side_sorted(side: Seq<LevelModel>, taker: OrderType, taker_price: i64, remaining: i64, taker_user: u128)
    requires
        sorted_levels(side),
    ensures
        sorted_levels(next_fill_side(side, taker, taker_price, remaining, taker_user).0),
    decreases side.len(),
{
    if side.len() > 0 {
        let bi = best_position(side, taker);
        let level = side[bi];
        let r = side.remove(bi);
        assert forall|a: int, c: int| 0 <= a < c < r.len() implies #[trigger] r[a].price < #[trigger] r[c].price by {
            let a0 = if a < bi { a } else { a + 1 };
            let c0 = if c < bi { c } else { c + 1 };
            assert(r[a] == side[a0]);
            assert(r[c] == side[c0]);
        }
        if crosses(taker, level.price, taker_price) && level.orders.len() == 0 {
            lemma_next_fill_side_sorted(r, taker, taker_price, remaining, taker_user);
        }
        let u = side.update(bi, LevelModel { price: level.price, orders: level.orders });
        assert forall|a: int, c: int| 0 <= a < c < u.len() implies #[trigger] u[a].price < #[trigger] u[c].price by {
            assert(side[a].price < side[c].price);
        }
    }
}

/// Matches a taker against one side of a book, as `next_fill_side` says.
pub fn fill_from_side(
    levels: &mut Vec<BookLevel>,
    taker: OrderType,
    taker_price: i64,
    remaining: i64,
    taker_user: u128,
) -> (f: Option<Fill>)
    requires
        remaining > 0,
    ensures
        (levels_view(final(levels)@), f) == next_fill_side(levels_view(old(levels)@), taker, taker_price, remaining, taker_user),
{
    loop
        invariant
            remaining > 0,
            next_fill_side(levels_view(levels@), taker, taker_price, remaining, taker_user)
                == next_fill_side(levels_view(old(levels)@), taker, taker_price, remaining, taker_user),
        decreases levels.len(),
    {
        let ghost side = levels_view(levels@);
        if levels.len() == 0 {
            return None;
        }
        let bi: usize = match taker {
            OrderType::Buy => 0,
            OrderType::Sell => levels.len() - 1,
        };
        assert(bi as int == best_position(side, taker));
        let maker_price = levels[bi].price;
        let cross = match taker {
            OrderType::Buy => maker_price <= taker_price,
            OrderType::Sell => maker_price >= taker_price,
        };
        if !cross {
            return None;
        }
        if levels[bi].orders.len() == 0 {
            levels.remove(bi);
            assert(levels_view(levels@) =~= side.remove(bi as int));
        } else {
            let front = levels[bi].orders[0];
            if front.user_id == taker_user {
                return None;
            }
            let q = if remaining <= front.quantity { remaining } else { front.quantity };
            let mut level = levels.remove(bi);
            let ghost lm = level@;
            assert(levels_view(levels@) =~= side.remove(bi as int));
            if q == front.quantity {
                level.orders.remove(0);
                assert(level.orders@ =~= lm.orders.drop_first());
            } else {
                level.orders.set(0, BookOrder { quantity: front.quantity - q, ..front });
            }
            if level.orders.len() == 0 {
                assert(levels_view(levels@) =~= side.remove(bi as int));
            } else {
                let ghost nl = level@;
                levels.insert(bi, level);
                assert(levels_view(levels@) =~= side.update(bi as int, nl));
            }
            return Some(Fill { maker_order_id: front.order_id, maker_user_id: front.user_id, maker_price, fill_qty: q });
        }
    }
}

/// Position of the book of `market_symbol`, adding an empty book when there
/// is none.
pub fn ensure_book(state: &mut OrderEngineState, market_symbol: &String) -> (i: usize)
    requires
        old(state).wf(),
    ensures
        (final(state)@, i as int) == with_book(old(state)@, market_symbol@),
        final(state).wf(),
        i < final(state).books.len(),
{
    match find_book(&state.books, market_symbol) {
        Some(i) => i,
        None => {
            let ghost before = state@;
            let book = MarketBook { market_symbol: market_symbol.clone(), book: OrderBook::new() };
            assert(book.book@.bids =~= Seq::<LevelModel>::empty());
            assert(book.book@.asks =~= Seq::<LevelModel>::empty());
            state.books.push(book);
            assert(books_view(state.books@) =~= before.books.push(
                MarketBookModel { symbol: market_symbol@, book: BookModel { bids: Seq::empty(), asks: Seq::empty() } },
            ));
            assert forall|k: int| 0 <= k < state@.books.len() implies book_wf(#[trigger] state@.books[k].book) by {
                if k < before.books.len() {
                    assert(state@.books[k] == before.books[k]);
                }
            }
            state.books.len() - 1
        },
    }
}

/// Finds the next fill for the taker order, as `spec_take_next_fill` says.
pub fn take_next_fill(state: &mut OrderEngineState, taker_order_id: u64, market_symbol: &String) -> (r: Result<Option<Fill>, ApplyError>)
    requires
        old(state).wf(),
    ensures
        spec_take_next_fill(old(state)@, taker_order_id, market_symbol@).agrees_checked(final(state)@, r),
        final(state).wf(),
{
    let ti = match find_order(&state.orders, taker_order_id) {
        Some(i) => i,
        None => return Err(ApplyError::OrderNotFound),
    };
    let taker_type = state.orders[ti].order_type;
    let taker_price = state.orders[ti].price;
    let taker_user = state.orders[ti].user_id;
    let remaining = match state.orders[ti].checked_remaining() {
        Some(v) => v,
        None => return Err(ApplyError::Overflow),
    };
    if remaining <= 0 {
        return Ok(None);
    }
    let bi = ensure_book(state, market_symbol);
    let ghost s1 = state@;
    let mut mb = state.books.remove(bi);
    let ghost mbm = mb@;
    assert(books_view(state.books@) =~= s1.books.remove(bi as int));
    proof {
        assert(book_wf(mbm.book));
    }
    let f = match taker_type {
        OrderType::Buy => fill_from_side(&mut mb.book.asks, taker_type, taker_price, remaining, taker_user),
        OrderType::Sell => fill_from_side(&mut mb.book.bids, taker_type, taker_price, remaining, taker_user),
    };
    proof {
        lemma_next_fill_side_sorted(opposite_side(mbm.book, taker_type), taker_type, taker_price, remaining, taker_user);
    }
    let ghost nmb = mb@;
    state.books.insert(bi, mb);
    assert(books_view(state.books@) =~= s1.books.update(bi as int, nmb));
    assert forall|k: int| 0 <= k < state@.books.len() implies book_wf(#[trigger] state@.books[k].book) by {
        if k != bi {
            assert(state@.books[k] == s1.books[k]);
        }
    }
    Ok(f)
}

} // verus!
