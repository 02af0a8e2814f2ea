//! The in-memory state of the engine, its model, and keyed lookups.
//!
//! Collections that the engine keys (balances by user and asset, orders by
//! id, books by market symbol) are sequences searched for the first entry
//! with the key; the engine only ever adds an entry when none has the key.
pub mod replay;
pub mod snapshot;

use vstd::prelude::*;
use crate::types::{levels_view, Asset, AssetModel, Balance, BookLevel, BookModel, LevelModel, Market, MarketBook, MarketBookModel, MarketModel, Order, OrderModel, Trade};

verus! {

/// The whole state of the matching engine.
pub struct OrderEngineState {
    pub next_order_id: u64,
    pub orders: Vec<Order>,
    pub balances: Vec<Balance>,
    pub books: Vec<MarketBook>,
    pub markets: Vec<Market>,
    pub assets: Vec<Asset>,
    pub trades: Vec<Trade>,
    pub processed_commands: Vec<u128>,
}

pub struct StateModel {
    pub next_order_id: u64,
    pub orders: Seq<OrderModel>,
    pub balances: Seq<Balance>,
    pub books: Seq<MarketBookModel>,
    pub markets: Seq<MarketModel>,
    pub assets: Seq<AssetModel>,
    pub trades: Seq<Trade>,
    pub processed_commands: Seq<u128>,
}

pub open spec fn orders_view(v: Seq<Order>) -> Seq<OrderModel> {
    v.map_values(|o: Order| o@)
}

pub open spec fn books_view(v: Seq<MarketBook>) -> Seq<MarketBookModel> {
    v.map_values(|b: MarketBook| b@)
}

pub open spec fn markets_view(v: Seq<Market>) -> Seq<MarketModel> {
    v.map_values(|m: Market| m@)
}

pub open spec fn assets_view(v: Seq<Asset>) -> Seq<AssetModel> {
    v.map_values(|a: Asset| a@)
}

impl View for OrderEngineState {
    type V = StateModel;

    open spec fn view(&self) -> StateModel {
        StateModel {
            next_order_id: self.next_order_id,
            orders: orders_view(self.orders@),
            balances: self.balances@,
            books: books_view(self.books@),
            markets: markets_view(self.markets@),
            assets: assets_view(self.assets@),
            trades: self.trades@,
            processed_commands: self.processed_commands@,
        }
    }
}

/// `i` is the first position of `s` whose element satisfies `p`.
pub open spec fn is_first<T>(s: Seq<T>, p: spec_fn(T) -> bool, i: int) -> bool {
    &&& 0 <= i < s.len()
    &&& p(s[i])
    &&& forall|j: int| 0 <= j < i ==> !p(#[trigger] s[j])
}

/// The first position of `s` whose element satisfies `p`, if any.
pub open spec fn first_index<T>(s: Seq<T>, p: spec_fn(T) -> bool) -> Option<int> {
    if exists|i: int| is_first(s, p, i) {
        Some(choose|i: int| is_first(s, p, i))
    } else {
        None
    }
}

pub proof fn lemma_first_index_found<T>(s: Seq<T>, p: spec_fn(T) -> bool, i: int)
    requires
        is_first(s, p, i),
    ensures
        first_index(s, p) == Some(i),
{
    let k = choose|k: int| is_first(s, p, k);
    assert(is_first(s, p, k));
    if k < i {
        assert(!p(s[k]));
    }
    if i < k {
        assert(!p(s[i]));
    }
}

pub proof fn lemma_first_index_none<T>(s: Seq<T>, p: spec_fn(T) -> bool)
    requires
        forall|j: int| 0 <= j < s.len() ==> !p(#[trigger] s[j]),
    ensures
        first_index(s, p) is None,
{
    if exists|i: int| is_first(s, p, i) {
        let k = choose|k: int| is_first(s, p, k);
        assert(p(s[k]));
    }
}

pub proof fn lemma_first_index_range<T>(s: Seq<T>, p: spec_fn(T) -> bool)
    ensures
        first_index(s, p) matches Some(i) ==> is_first(s, p, i),
{
}

/// Where the market with this symbol is kept.
pub open spec fn market_index(ms: Seq<MarketModel>, symbol: Seq<char>) -> Option<int> {
    first_index(ms, |m: MarketModel| m.symbol == symbol)
}

/// Where the market with this id is kept.
pub open spec fn market_index_by_id(ms: Seq<MarketModel>, id: u128) -> Option<int> {
    first_index(ms, |m: MarketModel| m.id == id)
}

/// Where the asset with this id is kept.
pub open spec fn asset_index(assets: Seq<AssetModel>, id: u128) -> Option<int> {
    first_index(assets, |a: AssetModel| a.id == id)
}

/// Where the balance of `user` in `asset` is kept.
pub open spec fn balance_index(bs: Seq<Balance>, user: u128, asset: u128) -> Option<int> {
    first_index(bs, |b: Balance| b.user_id == user && b.asset_id == asset)
}

/// Where the order with this id is kept.
pub open spec fn order_index(os: Seq<OrderModel>, id: u64) -> Option<int> {
    first_index(os, |o: OrderModel| o.id == id)
}

/// Where the book of the market with this symbol is kept.
pub open spec fn book_index(books: Seq<MarketBookModel>, symbol: Seq<char>) -> Option<int> {
    first_index(books, |b: MarketBookModel| b.symbol == symbol)
}

/// The prices of a book side increase strictly.
pub open spec fn sorted_levels(ls: Seq<LevelModel>) -> bool {
    forall|i: int, j: int| 0 <= i < j < ls.len() ==> #[trigger] ls[i].price < #[trigger] ls[j].price
}

pub open spec fn book_wf(b: BookModel) -> bool {
    sorted_levels(b.bids) && sorted_levels(b.asks)
}

impl StateModel {
    /// Every book keeps its sides ordered by price, as a price-keyed map
    /// does, and no command id is recorded as processed twice, as in a set.
    pub open spec fn wf(self) -> bool {
        &&& forall|i: int| 0 <= i < self.books.len() ==> book_wf(#[trigger] self.books[i].book)
        &&& self.processed_commands.no_duplicates()
    }

    pub open spec fn balance(self, user: u128, asset: u128) -> Option<Balance> {
        match balance_index(self.balances, user, asset) {
            Some(i) => Some(self.balances[i]),
            None => None,
        }
    }

    pub open spec fn order(self, id: u64) -> Option<OrderModel> {
        match order_index(self.orders, id) {
            Some(i) => Some(self.orders[i]),
            None => None,
        }
    }

    pub open spec fn book(self, symbol: Seq<char>) -> Option<BookModel> {
        match book_index(self.books, symbol) {
            Some(i) => Some(self.books[i].book),
            None => None,
        }
    }

    pub open spec fn is_processed(self, command_id: u128) -> bool {
        self.processed_commands.contains(command_id)
    }
}

/// Whether the levels of a book side are in strictly increasing price order.
pub fn levels_sorted(levels: &Vec<BookLevel>) -> (b: bool)
    ensures
        b == sorted_levels(levels_view(levels@)),
{
    let ghost ls = levels_view(levels@);
    if levels.len() == 0 {
        return true;
    }
    let mut i: usize = 1;
    while i < levels.len()
        invariant
            1 <= i <= levels.len(),
            ls == levels_view(levels@),
            forall|a: int, c: int| 0 <= a < c < i ==> #[trigger] ls[a].price < #[trigger] ls[c].price,
        decreases levels.len() - i,
    {
        if levels[i - 1].price >= levels[i].price {
            assert(ls[i - 1].price >= ls[i as int].price);
            return false;
        }
        assert forall|a: int, c: int| 0 <= a < c < i + 1 implies #[trigger] ls[a].price < #[trigger] ls[c].price by {
            if c == i && a < i - 1 {
                assert(ls[a].price < ls[i - 1].price);
            }
        }
        i += 1;
    }
    true
}

/// Whether no id occurs twice in `v`.
pub fn ids_distinct(v: &Vec<u128>) -> (b: bool)
    ensures
        b == v@.no_duplicates(),
{
    let mut i: usize = 0;
    while i < v.len()
        invariant
            i <= v.len(),
            forall|j: int, k: int| 0 <= j < k < v.len() && j < i ==> v@[j] != v@[k],
        decreases v.len() - i,
    {
        let mut k: usize = i + 1;
        while k < v.len()
            invariant
                i < v.len(),
                i + 1 <= k <= v.len(),
                forall|j: int, m: int| 0 <= j < m < v.len() && j < i ==> v@[j] != v@[m],
                forall|m: int| i < m < k ==> v@[i as int] != v@[m],
            decreases v.len() - k,
        {
            if v[i] == v[k] {
                return false;
            }
            k += 1;
        }
        i += 1;
    }
    true
}

impl OrderEngineState {
    pub open spec fn wf(&self) -> bool {
        self@.wf()
    }

    /// Whether every book keeps both sides in strictly increasing price
    /// order and no command id is recorded twice, which the engine's
    /// operations rely on; a state put together from outside (a restored
    /// snapshot) can be checked with it.
    pub fn is_well_formed(&self) -> (b: bool)
        ensures
            b == self.wf(),
    {
        let ghost bv = books_view(self.books@);
        let mut i: usize = 0;
        while i < self.books.len()
            invariant
                i <= self.books.len(),
                bv == books_view(self.books@),
                forall|j: int| 0 <= j < i ==> book_wf(#[trigger] bv[j].book),
            decreases self.books.len() - i,
        {
            assert(bv[i as int].book == self.books@[i as int].book@);
            let ok = levels_sorted(&self.books[i].book.bids) && levels_sorted(&self.books[i].book.asks);
            if !ok {
                assert(!book_wf(bv[i as int].book));
                assert(self@.books[i as int] == bv[i as int]);
                assert(!self@.wf());
                return false;
            }
            i += 1;
        }
        assert(forall|j: int| 0 <= j < self@.books.len() ==> book_wf(#[trigger] self@.books[j].book));
        ids_distinct(&self.processed_commands)
    }

    /// An empty engine whose first order will get id 1.
    pub fn new() -> (s: OrderEngineState)
        ensures
            s@ == (StateModel {
                next_order_id: 1,
                orders: Seq::empty(),
                balances: Seq::empty(),
                books: Seq::empty(),
                markets: Seq::empty(),
                assets: Seq::empty(),
                trades: Seq::empty(),
                processed_commands: Seq::empty(),
            }),
            s.wf(),
    {
        let s = OrderEngineState {
            next_order_id: 1,
            orders: Vec::new(),
            balances: Vec::new(),
            books: Vec::new(),
            markets: Vec::new(),
            assets: Vec::new(),
            trades: Vec::new(),
            processed_commands: Vec::new(),
        };
        assert(s@.orders =~= Seq::empty());
        assert(s@.books =~= Seq::empty());
        assert(s@.markets =~= Seq::empty());
        assert(s@.assets =~= Seq::empty());
        s
    }
}

impl Default for OrderEngineState {
    fn default() -> (s: Self)
        ensures
            s@ == (StateModel {
                next_order_id: 1,
                orders: Seq::empty(),
                balances: Seq::empty(),
                books: Seq::empty(),
                markets: Seq::empty(),
                assets: Seq::empty(),
                trades: Seq::empty(),
                processed_commands: Seq::empty(),
            }),
    {
        Self::new()
    }
}

/// Position of the first asset with exactly this symbol.
pub fn find_asset_by_symbol(assets: &Vec<Asset>, symbol: &String) -> (r: Option<usize>)
    ensures
        match r {
            Some(i) => first_index(assets_view(assets@), |a: AssetModel| a.symbol == symbol@) == Some(i as int),
            None => first_index(assets_view(assets@), |a: AssetModel| a.symbol == symbol@) is None,
        },
{
    let ghost av = assets_view(assets@);
    let ghost p = |a: AssetModel| a.symbol == symbol@;
    let mut i: usize = 0;
    while i < assets.len()
        invariant
            i <= assets.len(),
            av == assets_view(assets@),
            p == (|a: AssetModel| a.symbol == symbol@),
            forall|j: int| 0 <= j < i ==> !p(#[trigger] av[j]),
        decreases assets.len() - i,
    {
        if assets[i].symbol == *symbol {
            proof {
                lemma_first_index_found(av, p, i as int);
            }
            return Some(i);
        }
        i += 1;
    }
    proof {
        lemma_first_index_none(av, p);
    }
    None
}

/// Position of the first market with this symbol.
pub fn find_market(markets: &Vec<Market>, symbol: &String) -> (r: Option<usize>)
    ensures
        match r {
            Some(i) => market_index(markets_view(markets@), symbol@) == Some(i as int),
            None => market_index(markets_view(markets@), symbol@) is None,
        },
{
    let ghost ms = markets_view(markets@);
    let ghost p = |m: MarketModel| m.symbol == symbol@;
    let mut i: usize = 0;
    while i < markets.len()
        invariant
            i <= markets.len(),
            ms == markets_view(markets@),
            p == (|m: MarketModel| m.symbol == symbol@),
            forall|j: int| 0 <= j < i ==> !p(#[trigger] ms[j]),
        decreases markets.len() - i,
    {
        if markets[i].symbol == *symbol {
            proof {
                lemma_first_index_found(ms, p, i as int);
            }
            return Some(i);
        }
        i += 1;
    }
    proof {
        lemma_first_index_none(ms, p);
    }
    None
}

/// Position of the first market with this id.
pub fn find_market_by_id(markets: &Vec<Market>, id: u128) -> (r: Option<usize>)
    ensures
        match r {
            Some(i) => market_index_by_id(markets_view(markets@), id) == Some(i as int),
            None => market_index_by_id(markets_view(markets@), id) is None,
        },
{
    let ghost ms = markets_view(markets@);
    let ghost p = |m: MarketModel| m.id == id;
    let mut i: usize = 0;
    while i < markets.len()
        invariant
            i <= markets.len(),
            ms == markets_view(markets@),
            p == (|m: MarketModel| m.id == id),
            forall|j: int| 0 <= j < i ==> !p(#[trigger] ms[j]),
        decreases markets.len() - i,
    {
        if markets[i].id == id {
            proof {
                lemma_first_index_found(ms, p, i as int);
            }
            return Some(i);
        }
        i += 1;
    }
    proof {
        lemma_first_index_none(ms, p);
    }
    None
}

/// Position of the first asset with this id.
pub fn find_asset(assets: &Vec<Asset>, id: u128) -> (r: Option<usize>)
    ensures
        match r {
            Some(i) => asset_index(assets_view(assets@), id) == Some(i as int),
            None => asset_index(assets_view(assets@), id) is None,
        },
{
    let ghost xs = assets_view(assets@);
    let ghost p = |a: AssetModel| a.id == id;
    let mut i: usize = 0;
    while i < assets.len()
        invariant
            i <= assets.len(),
            xs == assets_view(assets@),
            p == (|a: AssetModel| a.id == id),
            forall|j: int| 0 <= j < i ==> !p(#[trigger] xs[j]),
        decreases assets.len() - i,
    {
        if assets[i].id == id {
            proof {
                lemma_first_index_found(xs, p, i as int);
            }
            return Some(i);
        }
        i += 1;
    }
    proof {
        lemma_first_index_none(xs, p);
    }
    None
}

/// Position of the balance of `user` in `asset`.
pub fn find_balance(balances: &Vec<Balance>, user: u128, asset: u128) -> (r: Option<usize>)
    ensures
        match r {
            Some(i) => balance_index(balances@, user, asset) == Some(i as int),
            None => balance_index(balances@, user, asset) is None,
        },
{
    let ghost p = |b: Balance| b.user_id == user && b.asset_id == asset;
    let mut i: usize = 0;
    while i < balances.len()
        invariant
            i <= balances.len(),
            p == (|b: Balance| b.user_id == user && b.asset_id == asset),
            forall|j: int| 0 <= j < i ==> !p(#[trigger] balances@[j]),
        decreases balances.len() - i,
    {
        if balances[i].user_id == user && balances[i].asset_id == asset {
            proof {
                lemma_first_index_found(balances@, p, i as int);
            }
            return Some(i);
        }
        i += 1;
    }
    proof {
        lemma_first_index_none(balances@, p);
    }
    None
}

/// Position of the order with this id.
pub fn find_order(orders: &Vec<Order>, id: u64) -> (r: Option<usize>)
    ensures
        match r {
            Some(i) => order_index(orders_view(orders@), id) == Some(i as int),
            None => order_index(orders_view(orders@), id) is None,
        },
{
    let ghost os = orders_view(orders@);
    let ghost p = |o: OrderModel| o.id == id;
    let mut i: usize = 0;
    while i < orders.len()
        invariant
            i <= orders.len(),
            os == orders_view(orders@),
            p == (|o: OrderModel| o.id == id),
            forall|j: int| 0 <= j < i ==> !p(#[trigger] os[j]),
        decreases orders.len() - i,
    {
        if orders[i].id == id {
            proof {
                lemma_first_index_found(os, p, i as int);
            }
            return Some(i);
        }
        i += 1;
    }
    proof {
        lemma_first_index_none(os, p);
    }
    None
}

/// Position of the book of the market with this symbol.
pub fn find_book(books: &Vec<MarketBook>, symbol: &String) -> (r: Option<usize>)
    ensures
        match r {
            Some(i) => book_index(books_view(books@), symbol@) == Some(i as int),
            None => book_index(books_view(books@), symbol@) is None,
        },
{
    let ghost bs = books_view(books@);
    let ghost p = |b: MarketBookModel| b.symbol == symbol@;
    let mut i: usize = 0;
    while i < books.len()
        invariant
            i <= books.len(),
            bs == books_view(books@),
            p == (|b: MarketBookModel| b.symbol == symbol@),
            forall|j: int| 0 <= j < i ==> !p(#[trigger] bs[j]),
        decreases books.len() - i,
    {
        if books[i].market_symbol == *symbol {
            proof {
                lemma_first_index_found(bs, p, i as int);
            }
            return Some(i);
        }
        i += 1;
    }
    proof {
        lemma_first_index_none(bs, p);
    }
    None
}

} // verus!
