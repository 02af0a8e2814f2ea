//! Putting the unfilled part of an order on the book, behind the orders
//! already resting at its price.
use vstd::prelude::*;
use crate::helper::remove_from_book::{find_level, level_index, side_of, with_side};
use crate::helper::take_fill::{ensure_book, with_book};
use crate::memory::{book_wf, books_view, first_index, is_first, lemma_first_index_found, lemma_first_index_none, sorted_levels, OrderEngineState, StateModel};
use crate::types::{levels_view, BookLevel, BookModel, BookOrder, LevelModel, MarketBookModel, OrderType};

verus! {

/// Where a new level at `price` goes to keep a side ordered: before the
/// first level with a higher price.
pub open spec fn insert_position(side: Seq<LevelModel>, price: i64) -> int {
    match first_index(side, |l: LevelModel| l.price > price) {
        Some(k) => k,
        None => side.len() as int,
    }
}

/// A side with `bo` queued last at `price`, in a new level when there was
/// none at that price.
pub open spec fn side_with_order(side: Seq<LevelModel>, price: i64, bo: BookOrder) -> Seq<LevelModel> {
    match level_index(side, price) {
        Some(i) => side.update(i, LevelModel { price, orders: side[i].orders.push(bo) }),
        None => side.insert(insert_position(side, price), LevelModel { price, orders: seq![bo] }),
    }
}

/// The state with `bo` resting at `price` on the side of `order_type` in the
/// book of `symbol` (the book created when missing).
pub open spec fn spec_rest_on_book(s: StateModel, symbol: Seq<char>, order_type: OrderType, price: i64, bo: BookOrder) -> StateModel {
    let (s1, bi) = with_book(s, symbol);
    let mb = s1.books[bi];
    let nb = with_side(mb.book, order_type, side_with_order(side_of(mb.book, order_type), price, bo));
    StateModel { books: s1.books.update(bi, MarketBookModel { book: nb, ..mb }), ..s1 }
}

pub proof fn lemma_side_with_order_sorted(side: Seq<LevelModel>, price: i64, bo: BookOrder)
    requires
        sorted_levels(side),
    ensures
        sorted_levels(side_with_order(side, price, bo)),
{
    let ns = side_with_order(side, price, bo);
    match level_index(side, price) {
        Some(i) => {
            assert forall|a: int, c: int| 0 <= a < c < ns.len() implies #[trigger] ns[a].price < #[trigger] ns[c].price by {
                assert(side[a].price < side[c].price);
            }
        },
        None => {
            let pos = insert_position(side, price);
            let gt = |l: LevelModel| l.price > price;
            let eq = |l: LevelModel| l.price == price;
            assert forall|k: int| 0 <= k < side.len() implies !eq(#[trigger] side[k]) by {
                if eq(side[k]) {
                    crate::helper::match_order::lemma_some_first(side, eq, k);
                }
            }
            assert forall|k: int| 0 <= k < pos implies #[trigger] side[k].price < price by {
                if let Some(p) = first_index(side, gt) {
                    assert(is_first(side, gt, p));
                    assert(!gt(side[k]));
                } else {
                    if gt(side[k]) {
                        crate::helper::match_order::lemma_some_first(side, gt, k);
                    }
                }
                assert(!eq(side[k]));
            }
            assert forall|k: int| pos <= k < side.len() implies #[trigger] side[k].price > price by {
                if let Some(p) = first_index(side, gt) {
                    assert(is_first(side, gt, p));
                    if k > p {
                        assert(side[p].price < side[k].price);
                    }
                }
            }
            assert forall|a: int, c: int| 0 <= a < c < ns.len() implies #[trigger] ns[a].price < #[trigger] ns[c].price by {
                if a < pos && c < pos {
                    assert(side[a].price < side[c].price);
                } else if a < pos && c == pos {
                    assert(side[a].price < price);
                } else if a < pos {
                    assert(ns[c] == side[c - 1]);
                    assert(side[a].price < price);
                } else if a == pos {
                    assert(ns[c] == side[c - 1]);
                } else {
                    assert(ns[a] == side[a - 1]);
                    assert(ns[c] == side[c - 1]);
                    assert(side[a - 1].price < side[c - 1].price);
                }
            }
        },
    }
}

/// Position before the first level priced above `price`.
pub fn find_insert_position(levels: &Vec<BookLevel>, price: i64) -> (k: usize)
    ensures
        k as int == insert_position(levels_view(levels@), price),
{
    let ghost ls = levels_view(levels@);
    let ghost p = |l: LevelModel| l.price > price;
    let mut i: usize = 0;
    while i < levels.len()
        invariant
            i <= levels.len(),
            ls == levels_view(levels@),
            p == (|l: LevelModel| l.price > price),
            forall|j: int| 0 <= j < i ==> !p(#[trigger] ls[j]),
        decreases levels.len() - i,
    {
        if levels[i].price > price {
            proof {
                lemma_first_index_found(ls, p, i as int);
            }
            return i;
        }
        i += 1;
    }
    proof {
        lemma_first_index_none(ls, p);
    }
    i
}

/// Queues `bo` last at `price` on one side.
pub fn add_to_side(levels: &mut Vec<BookLevel>, price: i64, bo: BookOrder)
    ensures
        levels_view(final(levels)@) == side_with_order(levels_view(old(levels)@), price, bo),
{
    let ghost side = levels_view(levels@);
    match find_level(levels, price) {
        Some(i) => {
            let mut level = levels.remove(i);
            level.orders.push(bo);
            let ghost nl = level@;
            levels.insert(i, level);
            assert(levels_view(levels@) =~= side.update(i as int, nl));
        },
        None => {
            let k = find_insert_position(levels, price);
            let mut orders: Vec<BookOrder> = Vec::new();
            orders.push(bo);
            let level = BookLevel { price, orders };
            assert(level@.orders =~= seq![bo]);
            let ghost nl = level@;
            levels.insert(k, level);
            assert(levels_view(levels@) =~= side.insert(k as int, nl));
        },
    }
}

/// Rests `bo` at `price` on the side of `order_type` in the book of
/// `market_symbol`.
pub fn rest_on_book(state: &mut OrderEngineState, market_symbol: &String, order_type: OrderType, price: i64, bo: BookOrder)
    requires
        old(state).wf(),
    ensures
        final(state).wf(),
        final(state)@ == spec_rest_on_book(old(state)@, market_symbol@, order_type, price, bo),
{
    let bi = ensure_book(state, market_symbol);
    let ghost s1 = state@;
    let mut mb = state.books.remove(bi);
    let ghost mbm = mb@;
    assert(book_wf(s1.books[bi as int].book));
    match order_type {
        OrderType::Buy => add_to_side(&mut mb.book.bids, price, bo),
        OrderType::Sell => add_to_side(&mut mb.book.asks, price, bo),
    }
    proof {
        lemma_side_with_order_sorted(side_of(mbm.book, order_type), price, bo);
    }
    let ghost nmb = mb@;
    state.books.insert(bi, mb);
    assert(books_view(state.books@) =~= s1.books.update(bi as int, nmb));
    assert forall|k: int| 0 <= k < state@.books.len() implies book_wf(#[trigger] state@.books[k].book) by {
        if k != bi {
            assert(state@.books[k] == s1.books[k]);
        }
    }
}

} // verus!
