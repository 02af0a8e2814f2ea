//! Taking an order off its price level.
use vstd::prelude::*;
use crate::commands::apply_command::ApplyError;
use crate::memory::{first_index, is_first, lemma_first_index_found, lemma_first_index_none, sorted_levels, book_wf};
use crate::types::{levels_view, BookLevel, BookModel, BookOrder, LevelModel, OrderBook, OrderType};

verus! {

/// Where the level at `price` sits on a side.
pub open spec fn level_index(side: Seq<LevelModel>, price: i64) -> Option<int> {
    first_index(side, |l: LevelModel| l.price == price)
}

/// The orders of a queue other than those of order `order_id`.
pub open spec fn without_order(q: Seq<BookOrder>, order_id: u64) -> Seq<BookOrder> {
    q.filter(|o: BookOrder| o.order_id != order_id)
}

/// The side an order of this type rests on: buys are bids, sells are asks.
pub open spec fn side_of(b: BookModel, t: OrderType) -> Seq<LevelModel> {
    match t {
        OrderType::Buy => b.bids,
        OrderType::Sell => b.asks,
    }
}

pub open spec fn with_side(b: BookModel, t: OrderType, side: Seq<LevelModel>) -> BookModel {
    match t {
        OrderType::Buy => BookModel { bids: side, ..b },
        OrderType::Sell => BookModel { asks: side, ..b },
    }
}

/// Removing every entry of `order_id` from the level at `price` of one side;
/// a level left empty is dropped. Without such a level or such an entry the
/// order is not found.
pub open spec fn spec_remove_from_side(side: Seq<LevelModel>, price: i64, order_id: u64) -> Result<Seq<LevelModel>, ApplyError> {
    match level_index(side, price) {
        None => Err(ApplyError::OrderNotFound),
        Some(i) => {
            let q = side[i].orders;
            let nq = without_order(q, order_id);
            if nq.len() == q.len() {
                Err(ApplyError::OrderNotFound)
            } else if nq.len() == 0 {
                Ok(side.remove(i))
            } else {
                Ok(side.update(i, LevelModel { price, orders: nq }))
            }
        },
    }
}

/// Removing order `order_id` from the level at `price` on the side of its type.
pub open spec fn spec_remove_from_book(b: BookModel, order_type: OrderType, price: i64, order_id: u64) -> Result<BookModel, ApplyError> {
    match spec_remove_from_side(side_of(b, order_type), price, order_id) {
        Ok(side) => Ok(with_side(b, order_type, side)),
        Err(e) => Err(e),
    }
}

pub proof fn lemma_remove_keeps_sorted(side: Seq<LevelModel>, price: i64, order_id: u64)
    ensures
        sorted_levels(side) ==> (spec_remove_from_side(side, price, order_id) matches Ok(ns) ==> sorted_levels(ns)),
{
    if !sorted_levels(side) {
    } else if let Some(i) = level_index(side, price) {
        let p = |l: LevelModel| l.price == price;
        assert(is_first(side, p, i));
        let q = side[i].orders;
        let nq = without_order(q, order_id);
        if nq.len() != q.len() && nq.len() != 0 {
            let ns = side.update(i, LevelModel { price, orders: nq });
            assert forall|a: int, c: int| 0 <= a < c < ns.len() implies #[trigger] ns[a].price < #[trigger] ns[c].price by {
                assert(side[a].price < side[c].price);
            }
        }
        if nq.len() == 0 {
            let ns = side.remove(i);
            assert forall|a: int, c: int| 0 <= a < c < ns.len() implies #[trigger] ns[a].price < #[trigger] ns[c].price by {
                let a0 = if a < i { a } else { a + 1 };
                let c0 = if c < i { c } else { c + 1 };
                assert(ns[a] == side[a0]);
                assert(ns[c] == side[c0]);
                assert(side[a0].price < side[c0].price);
            }
        }
    }
}

/// Position of the level at `price` on a side.
pub fn find_level(levels: &Vec<BookLevel>, price: i64) -> (r: Option<usize>)
    ensures
        match r {
            Some(i) => level_index(levels_view(levels@), price) == Some(i as int),
            None => level_index(levels_view(levels@), price) is None,
        },
{
    let ghost ls = levels_view(levels@);
    let ghost p = |l: LevelModel| l.price == price;
    let mut i: usize = 0;
    while i < levels.len()
        invariant
            i <= levels.len(),
            ls == levels_view(levels@),
            p == (|l: LevelModel| l.price == price),
            forall|j: int| 0 <= j < i ==> !p(#[trigger] ls[j]),
        decreases levels.len() - i,
    {
        if levels[i].price == price {
            proof {
                lemma_first_index_found(ls, p, i as int);
            }
            return Some(i);
        }
        i += 1;
    }
    proof {
        lemma_first_index_none(ls, p);
    }
    None
}

/// The queue without the entries of `order_id`.
pub fn queue_without(q: &Vec<BookOrder>, order_id: u64) -> (r: Vec<BookOrder>)
    ensures
        r@ == without_order(q@, order_id),
{
    let ghost pred = |o: BookOrder| o.order_id != order_id;
    let mut out: Vec<BookOrder> = Vec::new();
    let mut i: usize = 0;
    while i < q.len()
        invariant
            i <= q.len(),
            pred == (|o: BookOrder| o.order_id != order_id),
            out@ == q@.take(i as int).filter(pred),
        decreases q.len() - i,
    {
        proof {
            reveal_with_fuel(Seq::<_>::filter, 1);
            assert(q@.take(i + 1).drop_last() =~= q@.take(i as int));
        }
        if q[i].order_id != order_id {
            out.push(q[i]);
        }
        i += 1;
    }
    assert(q@.take(q.len() as int) =~= q@);
    out
}

/// Removes order `order_id` from the level at `price` of one side.
pub fn remove_from_side(levels: &mut Vec<BookLevel>, price: i64, order_id: u64) -> (r: Result<(), ApplyError>)
    ensures
        match spec_remove_from_side(levels_view(old(levels)@), price, order_id) {
            Ok(ns) => r is Ok && levels_view(final(levels)@) == ns,
            Err(e) => r == Err::<(), ApplyError>(e) && final(levels)@ == old(levels)@,
        },
{
    let i = match find_level(levels, price) {
        Some(i) => i,
        None => return Err(ApplyError::OrderNotFound),
    };
    let nq = queue_without(&levels[i].orders, order_id);
    if nq.len() == levels[i].orders.len() {
        return Err(ApplyError::OrderNotFound);
    }
    let ghost before = levels_view(levels@);
    if nq.len() == 0 {
        levels.remove(i);
        assert(levels_view(levels@) =~= before.remove(i as int));
    } else {
        let ghost nl = LevelModel { price, orders: nq@ };
        levels.set(i, BookLevel { price, orders: nq });
        assert(levels_view(levels@) =~= before.update(i as int, nl));
    }
    Ok(())
}

/// Removes order `order_id` from the level at `price` on the side of
/// `order_type`; the book is unchanged when the order is not there.
pub fn remove_from_book(book: &mut OrderBook, order_type: OrderType, price: i64, order_id: u64) -> (r: Result<(), ApplyError>)
    ensures
        match spec_remove_from_book(old(book)@, order_type, price, order_id) {
            Ok(nb) => r is Ok && final(book)@ == nb,
            Err(e) => r == Err::<(), ApplyError>(e) && final(book)@ == old(book)@,
        },
        book_wf(old(book)@) ==> book_wf(final(book)@),
{
    proof {
        lemma_remove_keeps_sorted(old(book)@.bids, price, order_id);
        lemma_remove_keeps_sorted(old(book)@.asks, price, order_id);
    }
    match order_type {
        OrderType::Buy => remove_from_side(&mut book.bids, price, order_id),
        OrderType::Sell => remove_from_side(&mut book.asks, price, order_id),
    }
}

} // verus!
