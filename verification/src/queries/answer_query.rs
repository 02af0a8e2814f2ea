//! Read-only queries on the engine state: a user's balances, a user's open
//! orders, and the depth of a market's book.
use vstd::prelude::*;
use vstd::multiset::Multiset;
use crate::external::{spec_to_uppercase, spec_trim, to_uppercase_string, trim_string};
use crate::helper::text_order::{lemma_text_le_refl, lemma_text_le_total, lemma_text_le_trans, text_le, text_less, text_lt};
use crate::memory::{asset_index, assets_view, book_index, find_asset, find_book, find_market, market_index, orders_view, OrderEngineState, StateModel};
use crate::helper::settle::fits_i64;
use crate::types::{levels_view, BookOrder, open_view_of, AssetModel, Balance, BookLevel, BookModel, LevelModel, OpenOrderModel, OpenOrderView, OrderModel, OrderStatus};

verus! {

broadcast use {vstd::seq_lib::group_to_multiset_ensures, vstd::multiset::group_multiset_axioms};

/// A user's balance in one asset, with the asset's details.
#[derive(Debug)]
pub struct AssetBalance {
    pub asset_id: u128,
    pub symbol: String,
    pub name: String,
    pub decimals: i32,
    pub available: i64,
    pub locked: i64,
    pub updated_at: i64,
}

pub struct AssetBalanceModel {
    pub asset_id: u128,
    pub symbol: Seq<char>,
    pub name: Seq<char>,
    pub decimals: i32,
    pub available: i64,
    pub locked: i64,
    pub updated_at: i64,
}

impl View for AssetBalance {
    type V = AssetBalanceModel;

    open spec fn view(&self) -> AssetBalanceModel {
        AssetBalanceModel {
            asset_id: self.asset_id,
            symbol: self.symbol@,
            name: self.name@,
            decimals: self.decimals,
            available: self.available,
            locked: self.locked,
            updated_at: self.updated_at,
        }
    }
}

pub open spec fn asset_balances_view(v: Seq<AssetBalance>) -> Seq<AssetBalanceModel> {
    v.map_values(|x: AssetBalance| x@)
}

pub open spec fn asset_balance_of(b: Balance, a: AssetModel) -> AssetBalanceModel {
    AssetBalanceModel {
        asset_id: b.asset_id,
        symbol: a.symbol,
        name: a.name,
        decimals: a.decimals,
        available: b.available,
        locked: b.locked,
        updated_at: b.updated_at,
    }
}

/// The balances of `user` in known assets, with the asset details, in the
/// order the balances are kept.
pub open spec fn user_balances(bs: Seq<Balance>, assets: Seq<AssetModel>, user: u128) -> Seq<AssetBalanceModel>
    decreases bs.len(),
{
    if bs.len() == 0 {
        Seq::empty()
    } else {
        let rest = user_balances(bs.drop_last(), assets, user);
        let b = bs.last();
        if b.user_id == user && asset_index(assets, b.asset_id) is Some {
            rest.push(asset_balance_of(b, assets[asset_index(assets, b.asset_id).unwrap()]))
        } else {
            rest
        }
    }
}

pub open spec fn sorted_by_symbol(xs: Seq<AssetBalanceModel>) -> bool {
    forall|i: int, j: int| 0 <= i < j < xs.len() ==> text_le(#[trigger] xs[i].symbol, #[trigger] xs[j].symbol)
}

/// Inserting at `k` adds the element to the multiset.
pub proof fn lemma_insert_multiset<A>(s: Seq<A>, k: int, x: A)
    requires
        0 <= k <= s.len(),
    ensures
        s.insert(k, x).to_multiset() =~= s.to_multiset().insert(x),
{
    let t = s.insert(k, x);
    assert(t.remove(k) =~= s);
    assert(t.remove(k).to_multiset() =~= t.to_multiset().remove(t[k]));
    assert(t.to_multiset().count(x) > 0) by {
        assert(t[k] == x);
        assert(t.contains(x));
    }
}

/// Puts `x` after every balance whose symbol sorts before or equal to its own.
pub fn insert_by_symbol(out: &mut Vec<AssetBalance>, x: AssetBalance)
    requires
        sorted_by_symbol(asset_balances_view(old(out)@)),
    ensures
        sorted_by_symbol(asset_balances_view(final(out)@)),
        asset_balances_view(final(out)@).to_multiset() =~= asset_balances_view(old(out)@).to_multiset().insert(x@),
{
    let ghost v = asset_balances_view(out@);
    let mut k: usize = 0;
    while k < out.len() && !text_less(&x.symbol, &out[k].symbol)
        invariant
            k <= out.len(),
            v == asset_balances_view(out@),
            forall|j: int| 0 <= j < k ==> !text_lt(x.symbol@, #[trigger] v[j].symbol),
        decreases out.len() - k,
    {
        k += 1;
    }
    let ghost xv = x@;
    out.insert(k, x);
    assert(asset_balances_view(out@) =~= v.insert(k as int, xv));
    proof {
        lemma_insert_multiset(v, k as int, xv);
        let nv = v.insert(k as int, xv);
        assert forall|i: int, j: int| 0 <= i < j < nv.len() implies text_le(#[trigger] nv[i].symbol, #[trigger] nv[j].symbol) by {
            if i < k && j < k {
            } else if i < k && j == k {
                lemma_text_le_total(xv.symbol, v[i].symbol);
            } else if i < k {
                assert(nv[j] == v[j - 1]);
            } else if i == k {
                assert(nv[j] == v[j - 1]);
                if k < v.len() {
                    assert(text_lt(xv.symbol, v[k as int].symbol));
                    lemma_text_le_total(xv.symbol, v[k as int].symbol);
                    if j - 1 > k {
                        assert(text_le(v[k as int].symbol, v[j - 1].symbol));
                        lemma_text_le_trans(xv.symbol, v[k as int].symbol, v[j - 1].symbol);
                    }
                }
            } else {
                assert(nv[i] == v[i - 1]);
                assert(nv[j] == v[j - 1]);
            }
        }
    }
}

/// The balances of `user_id` in known assets, ordered by asset symbol.
pub fn balances_for_user(state: &OrderEngineState, user_id: u128) -> (r: Vec<AssetBalance>)
    ensures
        sorted_by_symbol(asset_balances_view(r@)),
        asset_balances_view(r@).to_multiset() =~= user_balances(state@.balances, state@.assets, user_id).to_multiset(),
{
    let mut out: Vec<AssetBalance> = Vec::new();
    let mut i: usize = 0;
    assert(asset_balances_view(out@) =~= Seq::<AssetBalanceModel>::empty());
    while i < state.balances.len()
        invariant
            i <= state.balances.len(),
            sorted_by_symbol(asset_balances_view(out@)),
            asset_balances_view(out@).to_multiset() =~= user_balances(state@.balances.take(i as int), state@.assets, user_id).to_multiset(),
        decreases state.balances.len() - i,
    {
        let b = state.balances[i];
        assert(state@.balances.take(i + 1).drop_last() =~= state@.balances.take(i as int));
        if b.user_id == user_id {
            if let Some(ai) = find_asset(&state.assets, b.asset_id) {
                let a = &state.assets[ai];
                let x = AssetBalance {
                    asset_id: b.asset_id,
                    symbol: a.symbol.clone(),
                    name: a.name.clone(),
                    decimals: a.decimals,
                    available: b.available,
                    locked: b.locked,
                    updated_at: b.updated_at,
                };
                insert_by_symbol(&mut out, x);
            }
        }
        i += 1;
    }
    assert(state@.balances.take(state.balances.len() as int) =~= state@.balances);
    out
}

/// The open orders of `user` (active or partially filled) as views, in
/// the order the orders are kept.
pub open spec fn user_open_orders(os: Seq<OrderModel>, user: u128) -> Seq<OpenOrderModel>
    decreases os.len(),
{
    if os.len() == 0 {
        Seq::empty()
    } else {
        let rest = user_open_orders(os.drop_last(), user);
        let o = os.last();
        if o.user_id == user && o.is_open() {
            rest.push(open_view_of(o))
        } else {
            rest
        }
    }
}

pub open spec fn open_views(v: Seq<OpenOrderView>) -> Seq<OpenOrderModel> {
    v.map_values(|x: OpenOrderView| x@)
}

/// Newest first.
pub open spec fn newest_first(xs: Seq<OpenOrderModel>) -> bool {
    forall|i: int, j: int| 0 <= i < j < xs.len() ==> #[trigger] xs[i].created_at >= #[trigger] xs[j].created_at
}

/// Puts `x` after every order created at or after it.
pub fn insert_newest_first(out: &mut Vec<OpenOrderView>, x: OpenOrderView)
    requires
        newest_first(open_views(old(out)@)),
    ensures
        newest_first(open_views(final(out)@)),
        open_views(final(out)@).to_multiset() =~= open_views(old(out)@).to_multiset().insert(x@),
{
    let ghost v = open_views(out@);
    let mut k: usize = 0;
    while k < out.len() && out[k].created_at >= x.created_at
        invariant
            k <= out.len(),
            v == open_views(out@),
            forall|j: int| 0 <= j < k ==> #[trigger] v[j].created_at >= x.created_at,
        decreases out.len() - k,
    {
        k += 1;
    }
    let ghost xv = x@;
    out.insert(k, x);
    assert(open_views(out@) =~= v.insert(k as int, xv));
    proof {
        lemma_insert_multiset(v, k as int, xv);
        let nv = v.insert(k as int, xv);
        assert forall|i: int, j: int| 0 <= i < j < nv.len() implies #[trigger] nv[i].created_at >= #[trigger] nv[j].created_at by {
            if i > k {
                assert(nv[i] == v[i - 1]);
            }
            if j > k {
                assert(nv[j] == v[j - 1]);
            }
            if i == k && j > k && k < v.len() {
                assert(v[k as int].created_at < xv.created_at);
                assert(v[k as int].created_at >= v[j - 1].created_at || j - 1 == k);
            }
        }
    }
}

/// The open orders of `user_id`, newest first.
pub fn open_orders_for_user(state: &OrderEngineState, user_id: u128) -> (r: Vec<OpenOrderView>)
    ensures
        newest_first(open_views(r@)),
        open_views(r@).to_multiset() =~= user_open_orders(state@.orders, user_id).to_multiset(),
{
    let mut out: Vec<OpenOrderView> = Vec::new();
    let mut i: usize = 0;
    assert(open_views(out@) =~= Seq::<OpenOrderModel>::empty());
    while i < state.orders.len()
        invariant
            i <= state.orders.len(),
            newest_first(open_views(out@)),
            open_views(out@).to_multiset() =~= user_open_orders(state@.orders.take(i as int), user_id).to_multiset(),
        decreases state.orders.len() - i,
    {
        let o = &state.orders[i];
        assert(state@.orders.take(i + 1).drop_last() =~= state@.orders.take(i as int));
        assert(state@.orders[i as int] == o@);
        if o.user_id == user_id {
            match o.status {
                OrderStatus::Active | OrderStatus::PartiallyFilled => {
                    insert_newest_first(&mut out, o.to_open_view());
                },
                _ => {},
            }
        }
        i += 1;
    }
    assert(state@.orders.take(state.orders.len() as int) =~= state@.orders);
    out
}

/// The resting quantity and number of orders at one price.
#[derive(Clone, Copy, PartialEq, Eq, Structural, Debug)]
pub struct PriceLevel {
    pub price: i64,
    pub quantity: i64,
    pub order_count: u32,
}

/// Aggregated levels of a market's book: bids best (highest) first, asks
/// best (lowest) first.
#[derive(Debug)]
pub struct OrderBookDepth {
    pub market_symbol: String,
    pub bids: Vec<PriceLevel>,
    pub asks: Vec<PriceLevel>,
}

pub struct DepthModel {
    pub market_symbol: Seq<char>,
    pub bids: Seq<PriceLevel>,
    pub asks: Seq<PriceLevel>,
}

impl View for OrderBookDepth {
    type V = DepthModel;

    open spec fn view(&self) -> DepthModel {
        DepthModel { market_symbol: self.market_symbol@, bids: self.bids@, asks: self.asks@ }
    }
}

pub open spec fn depth_view(d: Option<OrderBookDepth>) -> Option<DepthModel> {
    match d {
        Some(x) => Some(x@),
        None => None,
    }
}

/// Total quantity of a queue.
pub open spec fn qty_sum(os: Seq<BookOrder>) -> int
    decreases os.len(),
{
    if os.len() == 0 {
        0
    } else {
        qty_sum(os.drop_last()) + os.last().quantity
    }
}

/// Adding up a queue's quantities in order stays within `i64`.
pub open spec fn running_sums_fit(os: Seq<BookOrder>) -> bool {
    forall|k: int| 0 <= k <= os.len() ==> fits_i64(#[trigger] qty_sum(os.take(k)))
}

pub open spec fn side_sums_fit(side: Seq<LevelModel>) -> bool {
    forall|i: int| 0 <= i < side.len() ==> running_sums_fit(#[trigger] side[i].orders)
}

/// The levels of the book of market `symbol` can be totalled in `i64`
/// (trivially when the market is not listed, as nothing is totalled then).
pub open spec fn depth_fits(s: StateModel, symbol: Seq<char>) -> bool {
    market_index(s.markets, symbol) is None || match s.book(symbol) {
        Some(b) => side_sums_fit(b.bids) && side_sums_fit(b.asks),
        None => true,
    }
}

/// The aggregate of one level (the count as a `u32`, as a cast gives it).
pub open spec fn level_of(l: LevelModel) -> PriceLevel {
    PriceLevel { price: l.price, quantity: qty_sum(l.orders) as i64, order_count: l.orders.len() as u32 }
}

pub open spec fn bid_depth(side: Seq<LevelModel>) -> Seq<PriceLevel> {
    side.reverse().map_values(|l: LevelModel| level_of(l))
}

pub open spec fn ask_depth(side: Seq<LevelModel>) -> Seq<PriceLevel> {
    side.map_values(|l: LevelModel| level_of(l))
}

/// The depth of the market `symbol` (exact symbol): none for an unknown
/// market; empty sides when it has no book yet.
pub open spec fn spec_depth_of(s: StateModel, symbol: Seq<char>) -> Option<DepthModel> {
    if market_index(s.markets, symbol) is None {
        None
    } else {
        match s.book(symbol) {
            Some(b) => Some(DepthModel { market_symbol: symbol, bids: bid_depth(b.bids), asks: ask_depth(b.asks) }),
            None => Some(DepthModel { market_symbol: symbol, bids: Seq::empty(), asks: Seq::empty() }),
        }
    }
}

/// The market symbol a query names: trimmed and upper-cased.
pub open spec fn normalized_symbol(text: Seq<char>) -> Seq<char> {
    spec_to_uppercase(spec_trim(text))
}

/// Trims and upper-cases a market symbol.
pub fn normalize_symbol(text: &str) -> (r: String)
    ensures
        r@ == normalized_symbol(text@),
{
    let t = trim_string(text);
    to_uppercase_string(t.as_str())
}

/// The aggregate of one level.
pub fn level_depth(l: &BookLevel) -> (p: PriceLevel)
    requires
        running_sums_fit(l.orders@),
    ensures
        p == level_of(l@),
{
    let mut total: i64 = 0;
    let mut i: usize = 0;
    assert(l.orders@.take(0) =~= Seq::<BookOrder>::empty());
    while i < l.orders.len()
        invariant
            i <= l.orders.len(),
            running_sums_fit(l.orders@),
            total == qty_sum(l.orders@.take(i as int)),
        decreases l.orders.len() - i,
    {
        assert(l.orders@.take(i + 1).drop_last() =~= l.orders@.take(i as int));
        assert(fits_i64(qty_sum(l.orders@.take(i + 1))));
        total = total + l.orders[i].quantity;
        i += 1;
    }
    assert(l.orders@.take(l.orders.len() as int) =~= l.orders@);
    PriceLevel { price: l.price, quantity: total, order_count: l.orders.len() as u32 }
}

/// Aggregates of the levels of a side, best ask first.
pub fn ask_levels(levels: &Vec<BookLevel>) -> (r: Vec<PriceLevel>)
    requires
        side_sums_fit(levels_view(levels@)),
    ensures
        r@ == ask_depth(levels_view(levels@)),
{
    let ghost side = levels_view(levels@);
    let mut out: Vec<PriceLevel> = Vec::new();
    let mut i: usize = 0;
    while i < levels.len()
        invariant
            i <= levels.len(),
            side == levels_view(levels@),
            side_sums_fit(side),
            out@ == ask_depth(side).take(i as int),
        decreases levels.len() - i,
    {
        assert(side[i as int] == levels@[i as int]@);
        assert(running_sums_fit(side[i as int].orders));
        let p = level_depth(&levels[i]);
        out.push(p);
        assert(out@ =~= ask_depth(side).take(i + 1));
        i += 1;
    }
    assert(ask_depth(side).take(levels.len() as int) =~= ask_depth(side));
    out
}

/// Aggregates of the levels of a side, best bid (highest price) first.
pub fn bid_levels(levels: &Vec<BookLevel>) -> (r: Vec<PriceLevel>)
    requires
        side_sums_fit(levels_view(levels@)),
    ensures
        r@ == bid_depth(levels_view(levels@)),
{
    let ghost side = levels_view(levels@);
    let mut out: Vec<PriceLevel> = Vec::new();
    let mut i: usize = levels.len();
    while i > 0
        invariant
            i <= levels.len(),
            side == levels_view(levels@),
            side_sums_fit(side),
            out@ == bid_depth(side).take(levels.len() - i),
        decreases i,
    {
        i -= 1;
        assert(side[i as int] == levels@[i as int]@);
        assert(running_sums_fit(side[i as int].orders));
        let p = level_depth(&levels[i]);
        out.push(p);
        assert(out@ =~= bid_depth(side).take(levels.len() - i));
    }
    assert(bid_depth(side).take(levels.len() as int) =~= bid_depth(side));
    out
}

/// The depth of the market with exactly this symbol.
pub fn depth_of(state: &OrderEngineState, symbol: String) -> (r: Option<OrderBookDepth>)
    requires
        depth_fits(state@, symbol@),
    ensures
        depth_view(r) == spec_depth_of(state@, symbol@),
{
    if find_market(&state.markets, &symbol).is_none() {
        return None;
    }
    match find_book(&state.books, &symbol) {
        Some(bi) => {
            let book = &state.books[bi].book;
            assert(state@.books[bi as int].book == book@);
            assert(state@.book(symbol@) == Some(book@));
            let bids = bid_levels(&book.bids);
            let asks = ask_levels(&book.asks);
            Some(OrderBookDepth { market_symbol: symbol, bids, asks })
        },
        None => {
            let d = OrderBookDepth { market_symbol: symbol, bids: Vec::new(), asks: Vec::new() };
            assert(d@.bids =~= Seq::<PriceLevel>::empty());
            assert(d@.asks =~= Seq::<PriceLevel>::empty());
            Some(d)
        },
    }
}

/// The depth of a market named by a (possibly untrimmed, lower-case) symbol.
pub fn order_book_depth(state: &OrderEngineState, market_symbol: &str) -> (r: Option<OrderBookDepth>)
    requires
        depth_fits(state@, normalized_symbol(market_symbol@)),
    ensures
        depth_view(r) == spec_depth_of(state@, normalized_symbol(market_symbol@)),
{
    let symbol = normalize_symbol(market_symbol);
    depth_of(state, symbol)
}

/// Whether the book of market `symbol` can be totalled in `i64`.
pub fn check_depth_fits(state: &OrderEngineState, symbol: &String) -> (b: bool)
    ensures
        b == depth_fits(state@, symbol@),
{
    if find_market(&state.markets, symbol).is_none() {
        return true;
    }
    match find_book(&state.books, symbol) {
        Some(bi) => {
            let book = &state.books[bi].book;
            assert(state@.books[bi as int].book == book@);
            check_side(&book.bids) && check_side(&book.asks)
        },
        None => true,
    }
}

/// The depth of a market named by a (possibly untrimmed, lower-case)
/// symbol, or `Err(())` when its book cannot be totalled in `i64`.
pub fn checked_order_book_depth(state: &OrderEngineState, market_symbol: &str) -> (r: Result<Option<OrderBookDepth>, ()>)
    ensures
        match r {
            Ok(d) => depth_fits(state@, normalized_symbol(market_symbol@))
                && depth_view(d) == spec_depth_of(state@, normalized_symbol(market_symbol@)),
            Err(_) => !depth_fits(state@, normalized_symbol(market_symbol@)),
        },
{
    let symbol = normalize_symbol(market_symbol);
    if !check_depth_fits(state, &symbol) {
        return Err(());
    }
    Ok(order_book_depth(state, market_symbol))
}

/// Whether every level of a side can be totalled in `i64`.
pub fn check_side(levels: &Vec<BookLevel>) -> (b: bool)
    ensures
        b == side_sums_fit(levels_view(levels@)),
{
    let ghost side = levels_view(levels@);
    let mut i: usize = 0;
    while i < levels.len()
        invariant
            i <= levels.len(),
            side == levels_view(levels@),
            forall|j: int| 0 <= j < i ==> running_sums_fit(#[trigger] side[j].orders),
        decreases levels.len() - i,
    {
        assert(side[i as int] == levels@[i as int]@);
        if !check_queue(&levels[i].orders) {
            assert(!running_sums_fit(side[i as int].orders));
            return false;
        }
        i += 1;
    }
    true
}

/// Whether adding up a queue's quantities in order stays within `i64`.
pub fn check_queue(os: &Vec<BookOrder>) -> (b: bool)
    ensures
        b == running_sums_fit(os@),
{
    let mut total: i128 = 0;
    let mut i: usize = 0;
    assert(os@.take(0) =~= Seq::<BookOrder>::empty());
    while i < os.len()
        invariant
            i <= os.len(),
            total == qty_sum(os@.take(i as int)),
            forall|k: int| 0 <= k <= i ==> fits_i64(#[trigger] qty_sum(os@.take(k))),
        decreases os.len() - i,
    {
        assert(os@.take(i + 1).drop_last() =~= os@.take(i as int));
        total = total + os[i].quantity as i128;
        if total < i64::MIN as i128 || total > i64::MAX as i128 {
            assert(!fits_i64(qty_sum(os@.take(i + 1))));
            return false;
        }
        i += 1;
    }
    assert(os@.take(os.len() as int) =~= os@);
    true
}

} // verus!

verus! {

/// A read-only request to the engine, tagged with the id its reply carries.
#[derive(Debug)]
pub enum EngineQuery {
    GetBalances { request_id: u128, user_id: u128 },
    GetOpenOrders { request_id: u128, user_id: u128 },
    GetOrderBook { request_id: u128, market_symbol: String },
}

/// The answer to an [`EngineQuery`], carrying the request's id.
#[derive(Debug)]
pub enum EngineReply {
    GetBalances { request_id: u128, balances: Vec<AssetBalance> },
    GetOpenOrders { request_id: u128, orders: Vec<OpenOrderView> },
    GetOrderBook { request_id: u128, book: Option<OrderBookDepth> },
}

impl EngineQuery {
    /// The id of the request, whatever its kind.
    pub fn request_id(&self) -> (id: u128)
        ensures
            id == match self {
                EngineQuery::GetBalances { request_id, .. } => *request_id,
                EngineQuery::GetOpenOrders { request_id, .. } => *request_id,
                EngineQuery::GetOrderBook { request_id, .. } => *request_id,
            },
    {
        match self {
            EngineQuery::GetBalances { request_id, .. } => *request_id,
            EngineQuery::GetOpenOrders { request_id, .. } => *request_id,
            EngineQuery::GetOrderBook { request_id, .. } => *request_id,
        }
    }
}

/// `r` is what [`balances_for_user`] answers for `user`.
pub open spec fn is_balances_answer(s: StateModel, user: u128, r: Seq<AssetBalance>) -> bool {
    &&& sorted_by_symbol(asset_balances_view(r))
    &&& asset_balances_view(r).to_multiset() =~= user_balances(s.balances, s.assets, user).to_multiset()
}

/// `r` is what [`open_orders_for_user`] answers for `user`.
pub open spec fn is_open_orders_answer(s: StateModel, user: u128, r: Seq<OpenOrderView>) -> bool {
    &&& newest_first(open_views(r))
    &&& open_views(r).to_multiset() =~= user_open_orders(s.orders, user).to_multiset()
}

/// Answers a query from the current state; the reply has the query's kind
/// and id.
pub fn answer_query(state: &OrderEngineState, query: EngineQuery) -> (reply: EngineReply)
    requires
        query matches EngineQuery::GetOrderBook { market_symbol, .. } ==> depth_fits(state@, normalized_symbol(market_symbol@)),
    ensures
        match query {
            EngineQuery::GetBalances { request_id, user_id } => match reply {
                EngineReply::GetBalances { request_id: rid, balances } =>
                    rid == request_id && is_balances_answer(state@, user_id, balances@),
                _ => false,
            },
            EngineQuery::GetOpenOrders { request_id, user_id } => match reply {
                EngineReply::GetOpenOrders { request_id: rid, orders } =>
                    rid == request_id && is_open_orders_answer(state@, user_id, orders@),
                _ => false,
            },
            EngineQuery::GetOrderBook { request_id, market_symbol } => match reply {
                EngineReply::GetOrderBook { request_id: rid, book } =>
                    rid == request_id && depth_view(book) == spec_depth_of(state@, normalized_symbol(market_symbol@)),
                _ => false,
            },
        },
{
    match query {
        EngineQuery::GetBalances { request_id, user_id } => EngineReply::GetBalances {
            request_id,
            balances: balances_for_user(state, user_id),
        },
        EngineQuery::GetOpenOrders { request_id, user_id } => EngineReply::GetOpenOrders {
            request_id,
            orders: open_orders_for_user(state, user_id),
        },
        EngineQuery::GetOrderBook { request_id, market_symbol } => EngineReply::GetOrderBook {
            request_id,
            book: order_book_depth(state, market_symbol.as_str()),
        },
    }
}

} // verus!

verus! {

/// Best first: in the depth of any market of a well-formed state, bid
/// prices strictly fall and ask prices strictly rise.
pub proof fn law_depth_best_first(s: StateModel, symbol: Seq<char>)
    requires
        s.wf(),
    ensures
        spec_depth_of(s, symbol) matches Some(d) ==> (forall|i: int, j: int| 0 <= i < j < d.bids.len()
            ==> #[trigger] d.bids[i].price > #[trigger] d.bids[j].price)
            && (forall|i: int, j: int| 0 <= i < j < d.asks.len() ==> #[trigger] d.asks[i].price < #[trigger] d.asks[j].price),
{
    if let Some(d) = spec_depth_of(s, symbol) {
        if let Some(b) = s.book(symbol) {
            let k = book_index(s.books, symbol).unwrap();
            crate::memory::lemma_first_index_range(s.books, |bk: crate::types::MarketBookModel| bk.symbol == symbol);
            assert(crate::memory::book_wf(s.books[k].book));
            assert forall|i: int, j: int| 0 <= i < j < d.bids.len() implies #[trigger] d.bids[i].price > #[trigger] d.bids[j].price by {
                let n = b.bids.len();
                assert(d.bids[i] == level_of(b.bids.reverse()[i]));
                assert(b.bids.reverse()[i] == b.bids[n - 1 - i]);
                assert(b.bids.reverse()[j] == b.bids[n - 1 - j]);
            }
            assert forall|i: int, j: int| 0 <= i < j < d.asks.len() implies #[trigger] d.asks[i].price < #[trigger] d.asks[j].price by {
                assert(d.asks[i] == level_of(b.asks[i]));
            }
        }
    }
}

/// Answers a query, or `Err(())` for a book query whose book cannot be
/// totalled in `i64`.
pub fn checked_answer_query(state: &OrderEngineState, query: EngineQuery) -> (r: Result<EngineReply, ()>)
    ensures
        match query {
            EngineQuery::GetOrderBook { request_id, market_symbol } => match r {
                Ok(EngineReply::GetOrderBook { request_id: rid, book }) => rid == request_id
                    && depth_fits(state@, normalized_symbol(market_symbol@))
                    && depth_view(book) == spec_depth_of(state@, normalized_symbol(market_symbol@)),
                Err(_) => !depth_fits(state@, normalized_symbol(market_symbol@)),
                _ => false,
            },
            EngineQuery::GetBalances { request_id, user_id } => match r {
                Ok(EngineReply::GetBalances { request_id: rid, balances }) =>
                    rid == request_id && is_balances_answer(state@, user_id, balances@),
                _ => false,
            },
            EngineQuery::GetOpenOrders { request_id, user_id } => match r {
                Ok(EngineReply::GetOpenOrders { request_id: rid, orders }) =>
                    rid == request_id && is_open_orders_answer(state@, user_id, orders@),
                _ => false,
            },
        },
{
    let fits = match &query {
        EngineQuery::GetOrderBook { market_symbol, .. } => {
            let symbol = normalize_symbol(market_symbol.as_str());
            check_depth_fits(state, &symbol)
        },
        _ => true,
    };
    if !fits {
        return Err(());
    }
    Ok(answer_query(state, query))
}

} // verus!
