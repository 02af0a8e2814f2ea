//! What a snapshot of the engine holds, how one is taken from the state and
//! how one is put back, and the stream positions saved with it.
use vstd::prelude::*;
use crate::memory::{books_view, orders_view, OrderEngineState, StateModel};
use crate::types::{levels_view, BookLevel, BookOrder, MarketBook, Order, OrderBook, OrderModel, OrderStatus, Trade};

verus! {

/// The stream position that reads a stream from its start.
pub const DEFAULT_CURSOR: &'static str = "0-0";

/// At most this many of the latest trades go into a snapshot.
pub const MAX_SNAPSHOT_TRADES: usize = 500;

/// The stream positions up to which commands were applied.
#[derive(Debug)]
pub struct SnapshotMeta {
    pub order_commands_cursor: String,
    pub engine_commands_cursor: String,
}

impl Default for SnapshotMeta {
    /// Both streams read from their start.
    fn default() -> (m: Self)
        ensures
            m.order_commands_cursor@ == DEFAULT_CURSOR@,
            m.engine_commands_cursor@ == DEFAULT_CURSOR@,
    {
        SnapshotMeta { order_commands_cursor: DEFAULT_CURSOR.to_owned(), engine_commands_cursor: DEFAULT_CURSOR.to_owned() }
    }
}

/// The part of the engine state that a snapshot keeps.
#[derive(Debug)]
pub struct EngineSnapshotPayload {
    pub next_order_id: u64,
    pub orders: Vec<Order>,
    pub books: Vec<MarketBook>,
    pub trades: Vec<Trade>,
    pub processed_commands: Vec<u128>,
}

/// The open (active or partially filled) orders, in the order kept.
pub open spec fn open_orders(os: Seq<OrderModel>) -> Seq<OrderModel> {
    os.filter(|o: OrderModel| o.is_open())
}

/// The latest `MAX_SNAPSHOT_TRADES` trades (all of them when fewer).
pub open spec fn latest_trades(ts: Seq<Trade>) -> Seq<Trade> {
    if ts.len() > MAX_SNAPSHOT_TRADES {
        ts.subrange(ts.len() - MAX_SNAPSHOT_TRADES, ts.len() as int)
    } else {
        ts
    }
}

fn copy_orders(os: &Vec<BookOrder>) -> (r: Vec<BookOrder>)
    ensures
        r@ == os@,
{
    let mut out: Vec<BookOrder> = Vec::new();
    let mut i: usize = 0;
    while i < os.len()
        invariant
            i <= os.len(),
            out@ == os@.take(i as int),
        decreases os.len() - i,
    {
        out.push(os[i]);
        i += 1;
        assert(out@ =~= os@.take(i as int));
    }
    assert(os@.take(os.len() as int) =~= os@);
    out
}

fn copy_levels(levels: &Vec<BookLevel>) -> (r: Vec<BookLevel>)
    ensures
        levels_view(r@) == levels_view(levels@),
{
    let mut out: Vec<BookLevel> = Vec::new();
    let mut i: usize = 0;
    while i < levels.len()
        invariant
            i <= levels.len(),
            levels_view(out@) == levels_view(levels@).take(i as int),
        decreases levels.len() - i,
    {
        let l = BookLevel { price: levels[i].price, orders: copy_orders(&levels[i].orders) };
        assert(l@ == levels@[i as int]@);
        let ghost prev = levels_view(out@);
        out.push(l);
        assert(levels_view(out@) =~= prev.push(levels@[i as int]@));
        i += 1;
        assert(levels_view(out@) =~= levels_view(levels@).take(i as int));
    }
    assert(levels_view(levels@).take(levels.len() as int) =~= levels_view(levels@));
    out
}

fn copy_books(books: &Vec<MarketBook>) -> (r: Vec<MarketBook>)
    ensures
        books_view(r@) == books_view(books@),
{
    let mut out: Vec<MarketBook> = Vec::new();
    let mut i: usize = 0;
    while i < books.len()
        invariant
            i <= books.len(),
            books_view(out@) == books_view(books@).take(i as int),
        decreases books.len() - i,
    {
        let b = &books[i];
        let copy = MarketBook {
            market_symbol: b.market_symbol.clone(),
            book: OrderBook { bids: copy_levels(&b.book.bids), asks: copy_levels(&b.book.asks) },
        };
        assert(copy@ == books@[i as int]@);
        let ghost prev = books_view(out@);
        out.push(copy);
        assert(books_view(out@) =~= prev.push(books@[i as int]@));
        i += 1;
        assert(books_view(out@) =~= books_view(books@).take(i as int));
    }
    assert(books_view(books@).take(books.len() as int) =~= books_view(books@));
    out
}

/// A snapshot of the state: the next order id, the open orders, all books,
/// the latest trades and the processed command ids.
pub fn build_payload(state: &OrderEngineState) -> (p: EngineSnapshotPayload)
    ensures
        p.next_order_id == state.next_order_id,
        orders_view(p.orders@) == open_orders(state@.orders),
        books_view(p.books@) == state@.books,
        p.trades@ == latest_trades(state@.trades),
        p.processed_commands@ == state@.processed_commands,
{
    let ghost os = state@.orders;
    let mut orders: Vec<Order> = Vec::new();
    let mut i: usize = 0;
    proof {
        reveal_with_fuel(Seq::<_>::filter, 1);
        assert(os.take(0).filter(|o: OrderModel| o.is_open()) =~= Seq::<OrderModel>::empty());
    }
    while i < state.orders.len()
        invariant
            i <= state.orders.len(),
            os == state@.orders,
            orders_view(orders@) == open_orders(os.take(i as int)),
        decreases state.orders.len() - i,
    {
        let o = &state.orders[i];
        let ghost prev = orders_view(orders@);
        assert(os.take(i + 1).drop_last() =~= os.take(i as int));
        assert(os[i as int] == o@);
        assert(os.take(i + 1).last() == o@);
        proof {
            reveal_with_fuel(Seq::<_>::filter, 1);
        }
        match o.status {
            OrderStatus::Active | OrderStatus::PartiallyFilled => {
                let d = o.duplicate();
                orders.push(d);
                assert(orders_view(orders@) =~= prev.push(o@));
            },
            _ => {},
        }
        assert(orders_view(orders@) =~= open_orders(os.take(i + 1)));
        i += 1;
    }
    assert(os.take(state.orders.len() as int) =~= os);
    let n = state.trades.len();
    let start: usize = if n > MAX_SNAPSHOT_TRADES { n - MAX_SNAPSHOT_TRADES } else { 0 };
    let mut trades: Vec<Trade> = Vec::new();
    let mut t: usize = start;
    while t < n
        invariant
            start <= t <= n,
            n == state.trades.len(),
            trades@ == state@.trades.subrange(start as int, t as int),
        decreases n - t,
    {
        trades.push(state.trades[t]);
        t += 1;
        assert(trades@ =~= state@.trades.subrange(start as int, t as int));
    }
    assert(latest_trades(state@.trades) =~= state@.trades.subrange(start as int, n as int));
    let mut processed: Vec<u128> = Vec::new();
    let mut k: usize = 0;
    while k < state.processed_commands.len()
        invariant
            k <= state.processed_commands.len(),
            processed@ == state@.processed_commands.take(k as int),
        decreases state.processed_commands.len() - k,
    {
        processed.push(state.processed_commands[k]);
        k += 1;
        assert(processed@ =~= state@.processed_commands.take(k as int));
    }
    assert(state@.processed_commands.take(state.processed_commands.len() as int) =~= state@.processed_commands);
    EngineSnapshotPayload {
        next_order_id: state.next_order_id,
        orders,
        books: copy_books(&state.books),
        trades,
        processed_commands: processed,
    }
}

/// Whether `id` occurs in `v`.
pub fn contains_id(v: &Vec<u128>, id: u128) -> (b: bool)
    ensures
        b == v@.contains(id),
{
    let mut i: usize = 0;
    while i < v.len()
        invariant
            i <= v.len(),
            forall|j: int| 0 <= j < i ==> v@[j] != id,
        decreases v.len() - i,
    {
        if v[i] == id {
            assert(v@[i as int] == id);
            return true;
        }
        i += 1;
    }
    false
}

/// What a sequence with one more element at its end contains.
pub proof fn lemma_push_contains(s: Seq<u128>, x: u128)
    ensures
        forall|y: u128| #[trigger] s.push(x).contains(y) <==> s.contains(y) || y == x,
{
    assert forall|y: u128| #[trigger] s.push(x).contains(y) <==> s.contains(y) || y == x by {
        if s.push(x).contains(y) {
            let j = choose|j: int| 0 <= j < s.push(x).len() && s.push(x)[j] == y;
            if j < s.len() {
                assert(s[j] == y);
            }
        }
        if s.contains(y) {
            let j = choose|j: int| 0 <= j < s.len() && s[j] == y;
            assert(s.push(x)[j] == y);
        }
        if y == x {
            assert(s.push(x)[s.len() as int] == y);
        }
    }
}

/// Puts a snapshot back: the order id counter (at least 1), orders, books
/// and trades are replaced; the snapshot's processed command ids are added
/// to those already known, each id kept once; balances, markets and assets
/// are kept.
pub fn apply_payload(state: &mut OrderEngineState, payload: EngineSnapshotPayload)
    ensures
        final(state).next_order_id == if payload.next_order_id > 1 { payload.next_order_id } else { 1 },
        final(state)@.orders == orders_view(payload.orders@),
        final(state)@.books == books_view(payload.books@),
        final(state)@.trades == payload.trades@,
        final(state)@.balances == old(state)@.balances,
        final(state)@.markets == old(state)@.markets,
        final(state)@.assets == old(state)@.assets,
        forall|id: u128| #[trigger] final(state)@.processed_commands.contains(id)
            <==> old(state)@.processed_commands.contains(id) || payload.processed_commands@.contains(id),
        old(state)@.processed_commands.no_duplicates() ==> final(state)@.processed_commands.no_duplicates(),
{
    let EngineSnapshotPayload { next_order_id, orders, books, trades, processed_commands } = payload;
    let mut merged: Vec<u128> = Vec::new();
    std::mem::swap(&mut merged, &mut state.processed_commands);
    let ghost start = merged@;
    let mut i: usize = 0;
    while i < processed_commands.len()
        invariant
            i <= processed_commands.len(),
            forall|id: u128| #[trigger] merged@.contains(id)
                <==> start.contains(id) || processed_commands@.take(i as int).contains(id),
            start.no_duplicates() ==> merged@.no_duplicates(),
        decreases processed_commands.len() - i,
    {
        let id = processed_commands[i];
        let ghost prev = merged@;
        let ghost a = processed_commands@.take(i as int);
        let ghost b = processed_commands@.take(i + 1);
        proof {
            assert(b =~= a.push(id));
            lemma_push_contains(a, id);
        }
        if !contains_id(&merged, id) {
            merged.push(id);
            proof {
                lemma_push_contains(prev, id);
                if prev.no_duplicates() {
                    assert forall|j: int, k: int| 0 <= j < k < merged@.len() implies merged@[j] != merged@[k] by {
                        if k == prev.len() {
                            assert(prev[j] == merged@[j]);
                        } else {
                            assert(prev[j] != prev[k]);
                        }
                    }
                }
            }
        }
        i += 1;
    }
    state.next_order_id = if next_order_id > 1 { next_order_id } else { 1 };
    state.orders = orders;
    state.books = books;
    state.trades = trades;
    state.processed_commands = merged;
    assert(processed_commands@.take(processed_commands.len() as int) =~= processed_commands@);
}

} // verus!
