//! The events a processed command publishes: the trades it made, the book
//! levels it changed, and the open orders and balances of the users it
//! touched.
use vstd::prelude::*;
use crate::helper::diff_book_levels::{diff_book_levels, empty_depth, is_level_diff, level_changed, OrderBookLevelDelta};
use crate::helper::level_map::level_map_of;
use crate::helper::match_order::lemma_some_first;
use crate::memory::{first_index, lemma_first_index_found, lemma_first_index_none, market_index_by_id, find_market_by_id, markets_view, OrderEngineState, StateModel};
use crate::queries::answer_query::{balances_for_user, check_depth_fits, depth_fits, depth_view, is_balances_answer, is_open_orders_answer, normalize_symbol, normalized_symbol, open_orders_for_user, order_book_depth, spec_depth_of, AssetBalance, DepthModel, OrderBookDepth};
use crate::types::{Command, CommandModel, LedgerIntent, OpenOrderView, Trade};

verus! {

/// A trade as published, with its market's symbol.
#[derive(Debug)]
pub struct TradeView {
    pub id: u128,
    pub market_id: u128,
    pub market_symbol: String,
    pub maker_order_id: u64,
    pub taker_order_id: u64,
    pub price: i64,
    pub quantity: i64,
    pub buyer_user_id: u128,
    pub seller_user_id: u128,
    pub created_at: i64,
}

/// What the engine publishes after a command.
#[derive(Debug)]
pub enum ExchangeEvent {
    TradeExecuted { trade: TradeView },
    OrderBookUpdated { market_symbol: String, updates: Vec<OrderBookLevelDelta> },
    OpenOrdersUpdated { user_id: u128, orders: Vec<OpenOrderView> },
    BalanceUpdated { user_id: u128, balances: Vec<AssetBalance> },
}

/// The symbol of the market a trade was made in; empty for an unknown market.
pub open spec fn trade_symbol(s: StateModel, t: Trade) -> Seq<char> {
    match market_index_by_id(s.markets, t.market_id) {
        Some(i) => s.markets[i].symbol,
        None => Seq::empty(),
    }
}

/// `v` publishes trade `t`.
pub open spec fn is_view_of(s: StateModel, t: Trade, v: TradeView) -> bool {
    &&& v.id == t.id
    &&& v.market_id == t.market_id
    &&& v.market_symbol@ == trade_symbol(s, t)
    &&& v.maker_order_id == t.maker_order_id
    &&& v.taker_order_id == t.taker_order_id
    &&& v.price == t.price
    &&& v.quantity == t.quantity
    &&& v.buyer_user_id == t.buyer_user_id
    &&& v.seller_user_id == t.seller_user_id
    &&& v.created_at == t.created_at
}

/// The user a command is issued by.
pub open spec fn command_user(c: CommandModel) -> u128 {
    match c {
        CommandModel::CreateOrder { user_id, .. } => user_id,
        CommandModel::CancelOrder { user_id, .. } => user_id,
        CommandModel::CreditBalance { user_id, .. } => user_id,
    }
}

/// The trades made since the first `from` (none if there are not that many).
pub open spec fn new_trades(s: StateModel, from: int) -> Seq<Trade> {
    if from < s.trades.len() {
        s.trades.subrange(from, s.trades.len() as int)
    } else {
        Seq::empty()
    }
}

/// `u` bought or sold in trade `t`.
pub open spec fn trades_with(t: Trade, u: u128) -> bool {
    t.buyer_user_id == u || t.seller_user_id == u
}

/// `u` bought or sold in one of the trades.
pub open spec fn is_party(ts: Seq<Trade>, u: u128) -> bool {
    exists|i: int| 0 <= i < ts.len() && trades_with(#[trigger] ts[i], u)
}

/// `m` is the (non-empty) market symbol of one of the trades.
pub open spec fn is_trade_market(s: StateModel, ts: Seq<Trade>, m: Seq<char>) -> bool {
    m.len() > 0 && exists|i: int| 0 <= i < ts.len() && trade_symbol(s, #[trigger] ts[i]) == m
}

/// `u` is named by one of the intents.
pub open spec fn is_intent_user(intents: Seq<LedgerIntent>, u: u128) -> bool {
    exists|i: int| 0 <= i < intents.len() && #[trigger] intents[i].user_id == u
}

/// `m` is the symbol of one of the snapshots.
pub open spec fn is_snapshot_market(before: Seq<DepthModel>, m: Seq<char>) -> bool {
    exists|i: int| 0 <= i < before.len() && #[trigger] before[i].market_symbol == m
}

/// Users whose balances a command can have changed: those of the intents,
/// the issuer, and both sides of each new trade.
pub open spec fn is_balance_user(s: StateModel, c: CommandModel, intents: Seq<LedgerIntent>, from: int, u: u128) -> bool {
    is_intent_user(intents, u) || u == command_user(c) || is_party(new_trades(s, from), u)
}

/// Users whose open orders a command can have changed: the issuer of an
/// order command, and both sides of each new trade.
pub open spec fn is_open_order_user(s: StateModel, c: CommandModel, from: int, u: u128) -> bool {
    (!(c is CreditBalance) && u == command_user(c)) || is_party(new_trades(s, from), u)
}

/// Markets whose books a command can have changed: those snapshotted
/// before, the market an order was placed in, and the markets of new trades.
pub open spec fn is_touched_market(s: StateModel, c: CommandModel, before: Seq<DepthModel>, from: int, m: Seq<char>) -> bool {
    ||| is_snapshot_market(before, m)
    ||| (c matches CommandModel::CreateOrder { market_symbol, .. } && m == normalized_symbol(market_symbol))
    ||| is_trade_market(s, new_trades(s, from), m)
}

/// The snapshot of market `m` taken before the command (empty if none).
pub open spec fn depth_before(before: Seq<DepthModel>, m: Seq<char>) -> DepthModel {
    match first_index(before, |d: DepthModel| d.market_symbol == m) {
        Some(i) => before[i],
        None => empty_depth(),
    }
}

/// The depth of market `m` now (empty if it has none).
pub open spec fn depth_after(s: StateModel, m: Seq<char>) -> DepthModel {
    match spec_depth_of(s, normalized_symbol(m)) {
        Some(d) => d,
        None => empty_depth(),
    }
}

/// Some level of market `m` changed.
pub open spec fn book_changed(s: StateModel, before: Seq<DepthModel>, m: Seq<char>) -> bool {
    exists|k| level_changed(level_map_of(depth_before(before, m)), level_map_of(depth_after(s, m)), k)
}

pub open spec fn depths_view(v: Seq<OrderBookDepth>) -> Seq<DepthModel> {
    v.map_values(|d: OrderBookDepth| d@)
}

pub open spec fn strings_view(v: Seq<String>) -> Seq<Seq<char>> {
    v.map_values(|x: String| x@)
}

pub open spec fn is_trade_event(s: StateModel, t: Trade, e: ExchangeEvent) -> bool {
    match e {
        ExchangeEvent::TradeExecuted { trade } => is_view_of(s, t, trade),
        _ => false,
    }
}

pub open spec fn is_book_event(s: StateModel, before: Seq<DepthModel>, e: ExchangeEvent) -> bool {
    match e {
        ExchangeEvent::OrderBookUpdated { market_symbol, updates } => updates@.len() > 0 && is_level_diff(
            level_map_of(depth_before(before, market_symbol@)),
            level_map_of(depth_after(s, market_symbol@)),
            updates@,
        ),
        _ => false,
    }
}

pub open spec fn is_open_orders_event(s: StateModel, e: ExchangeEvent) -> bool {
    match e {
        ExchangeEvent::OpenOrdersUpdated { user_id, orders } => is_open_orders_answer(s, user_id, orders@),
        _ => false,
    }
}

pub open spec fn is_balance_event(s: StateModel, e: ExchangeEvent) -> bool {
    match e {
        ExchangeEvent::BalanceUpdated { user_id, balances } => is_balances_answer(s, user_id, balances@),
        _ => false,
    }
}

/// The market an event is about (book events).
pub open spec fn event_market(e: ExchangeEvent) -> Seq<char> {
    match e {
        ExchangeEvent::OrderBookUpdated { market_symbol, .. } => market_symbol@,
        _ => Seq::empty(),
    }
}

/// The user an event is about (open-order and balance events).
pub open spec fn event_user(e: ExchangeEvent) -> u128 {
    match e {
        ExchangeEvent::OpenOrdersUpdated { user_id, .. } => user_id,
        ExchangeEvent::BalanceUpdated { user_id, .. } => user_id,
        _ => 0,
    }
}

/// No value occurs twice.
pub open spec fn no_repeats<T>(s: Seq<T>) -> bool {
    forall|i: int, j: int| 0 <= i < j < s.len() ==> s[i] != s[j]
}

/// The book markets an order command names, trimmed and upper-cased: the
/// order's market, or the market of the cancelled order when known.
pub open spec fn spec_affected_markets(c: CommandModel, cancel_market: Option<Seq<char>>) -> Seq<Seq<char>> {
    match c {
        CommandModel::CreateOrder { market_symbol, .. } => seq![normalized_symbol(market_symbol)],
        CommandModel::CancelOrder { .. } => match cancel_market {
            Some(m) => seq![normalized_symbol(m)],
            None => Seq::empty(),
        },
        CommandModel::CreditBalance { .. } => Seq::empty(),
    }
}

pub open spec fn str_opt_view(o: Option<&str>) -> Option<Seq<char>> {
    match o {
        Some(m) => Some(m@),
        None => None,
    }
}

/// The book markets an order command names, trimmed and upper-cased: the
/// order's market, or the market of the cancelled order when known.
pub fn affected_book_markets(command: &Command, cancel_market_symbol: Option<&str>) -> (r: Vec<String>)
    ensures
        strings_view(r@) == spec_affected_markets(command@, str_opt_view(cancel_market_symbol)),
{
    let r = match command {
        Command::CreateOrder { market_symbol, .. } => vec![normalize_symbol(market_symbol.as_str())],
        Command::CancelOrder { .. } => match cancel_market_symbol {
            Some(m) => vec![normalize_symbol(m)],
            None => Vec::new(),
        },
        Command::CreditBalance { .. } => Vec::new(),
    };
    assert(strings_view(r@) =~= match command@ {
        CommandModel::CreateOrder { market_symbol, .. } => seq![normalized_symbol(market_symbol)],
        CommandModel::CancelOrder { .. } => match cancel_market_symbol {
            Some(m) => seq![normalized_symbol(m@)],
            None => Seq::<Seq<char>>::empty(),
        },
        CommandModel::CreditBalance { .. } => Seq::<Seq<char>>::empty(),
    });
    r
}

/// Position of the first snapshot of market `symbol`.
fn find_depth(books: &Vec<OrderBookDepth>, symbol: &String) -> (r: Option<usize>)
    ensures
        match r {
            Some(i) => first_index(depths_view(books@), |d: DepthModel| d.market_symbol == symbol@) == Some(i as int),
            None => first_index(depths_view(books@), |d: DepthModel| d.market_symbol == symbol@) is None,
        },
{
    let ghost ds = depths_view(books@);
    let ghost p = |d: DepthModel| d.market_symbol == symbol@;
    let mut i: usize = 0;
    while i < books.len()
        invariant
            i <= books.len(),
            ds == depths_view(books@),
            p == (|d: DepthModel| d.market_symbol == symbol@),
            forall|j: int| 0 <= j < i ==> !p(#[trigger] ds[j]),
        decreases books.len() - i,
    {
        if books[i].market_symbol == *symbol {
            proof {
                lemma_first_index_found(ds, p, i as int);
            }
            return Some(i);
        }
        i += 1;
    }
    proof {
        lemma_first_index_none(ds, p);
    }
    None
}

/// The market symbols of the snapshots.
pub open spec fn depth_symbols(ds: Seq<DepthModel>) -> Seq<Seq<char>> {
    ds.map_values(|d: DepthModel| d.market_symbol)
}

/// `m` is one of the listed market names, trimmed and upper-cased.
pub open spec fn is_listed(markets: Seq<String>, n: int, m: Seq<char>) -> bool {
    exists|t: int| 0 <= t < n && normalized_symbol(#[trigger] markets[t]@) == m
}

/// Sets the snapshot of `book`'s market to `book`.
fn put_depth(out: &mut Vec<OrderBookDepth>, book: OrderBookDepth)
    requires
        no_repeats(depth_symbols(depths_view(old(out)@))),
    ensures
        no_repeats(depth_symbols(depths_view(final(out)@))),
        depths_view(final(out)@).contains(book@),
        forall|d: DepthModel| #[trigger] depths_view(final(out)@).contains(d) ==> d == book@ || depths_view(old(out)@).contains(d),
        forall|d: DepthModel| #[trigger] depths_view(old(out)@).contains(d) ==> depths_view(final(out)@).contains(d)
            || d.market_symbol == book@.market_symbol,
{
    let ghost prev = depths_view(out@);
    let ghost bv = book@;
    let ghost p = |d: DepthModel| d.market_symbol == bv.market_symbol;
    match find_depth(out, &book.market_symbol) {
        Some(k) => {
            proof {
                crate::memory::lemma_first_index_range(prev, p);
            }
            out.set(k, book);
            proof {
                let nv = depths_view(out@);
                assert(nv =~= prev.update(k as int, bv));
                assert(depth_symbols(nv) =~= depth_symbols(prev));
                assert(nv[k as int] == bv);
                assert forall|d: DepthModel| #[trigger] nv.contains(d) implies d == bv || prev.contains(d) by {
                    let i = choose|i: int| 0 <= i < nv.len() && nv[i] == d;
                    if i != k {
                        assert(prev[i] == d);
                    }
                }
                assert forall|d: DepthModel| #[trigger] prev.contains(d) implies nv.contains(d) || d.market_symbol == bv.market_symbol by {
                    let i = choose|i: int| 0 <= i < prev.len() && prev[i] == d;
                    if i != k {
                        assert(nv[i] == d);
                    }
                }
            }
        },
        None => {
            out.push(book);
            proof {
                let nv = depths_view(out@);
                assert(nv =~= prev.push(bv));
                assert(nv[prev.len() as int] == bv);
                let ks = depth_symbols(nv);
                assert forall|a: int, b: int| 0 <= a < b < ks.len() implies ks[a] != ks[b] by {
                    if b == prev.len() {
                        if ks[a] == ks[b] {
                            assert(p(prev[a]));
                            lemma_some_first(prev, p, a);
                        }
                    } else {
                        assert(ks[a] == depth_symbols(prev)[a]);
                        assert(ks[b] == depth_symbols(prev)[b]);
                    }
                }
                assert forall|d: DepthModel| #[trigger] nv.contains(d) implies d == bv || prev.contains(d) by {
                    let i = choose|i: int| 0 <= i < nv.len() && nv[i] == d;
                    if i < prev.len() {
                        assert(prev[i] == d);
                    }
                }
                assert forall|d: DepthModel| #[trigger] prev.contains(d) implies nv.contains(d) by {
                    let i = choose|i: int| 0 <= i < prev.len() && prev[i] == d;
                    assert(nv[i] == d);
                }
            }
        },
    }
}

/// `r` holds the depth of each listed market that exists, keyed by its
/// (trimmed, upper-cased) symbol: each symbol once, with the market's
/// current depth.
pub open spec fn is_books_snapshot(s: StateModel, markets: Seq<Seq<char>>, r: Seq<DepthModel>) -> bool {
    &&& no_repeats(depth_symbols(r))
    &&& forall|i: int| 0 <= i < r.len() ==> Some(#[trigger] r[i]) == spec_depth_of(s, r[i].market_symbol)
        && exists|t: int| 0 <= t < markets.len() && normalized_symbol(#[trigger] markets[t]) == r[i].market_symbol
    &&& forall|t: int| 0 <= t < markets.len() && (#[trigger] spec_depth_of(s, normalized_symbol(markets[t]))) is Some
        ==> depth_symbols(r).contains(normalized_symbol(markets[t]))
}

/// The depth of each listed market that exists, keyed by its (trimmed,
/// upper-cased) symbol: each symbol once, with the market's current depth.
pub fn snapshot_books(state: &OrderEngineState, markets: &Vec<String>) -> (r: Vec<OrderBookDepth>)
    requires
        forall|t: int| 0 <= t < markets@.len() ==> depth_fits(state@, normalized_symbol(#[trigger] markets@[t]@)),
    ensures
        is_books_snapshot(state@, strings_view(markets@), depths_view(r@)),
{
    let mut out: Vec<OrderBookDepth> = Vec::new();
    let mut j: usize = 0;
    assert(depth_symbols(depths_view(out@)) =~= Seq::<Seq<char>>::empty());
    while j < markets.len()
        invariant
            j <= markets.len(),
            forall|t: int| 0 <= t < markets@.len() ==> depth_fits(state@, normalized_symbol(#[trigger] markets@[t]@)),
            no_repeats(depth_symbols(depths_view(out@))),
            forall|d: DepthModel| #[trigger] depths_view(out@).contains(d) ==> Some(d) == spec_depth_of(state@, d.market_symbol)
                && is_listed(markets@, j as int, d.market_symbol),
            forall|t: int| 0 <= t < j && (#[trigger] spec_depth_of(state@, normalized_symbol(markets@[t]@))) is Some
                ==> depths_view(out@).contains(spec_depth_of(state@, normalized_symbol(markets@[t]@)).unwrap()),
        decreases markets.len() - j,
    {
        let ghost prev = depths_view(out@);
        let ghost m = normalized_symbol(markets@[j as int]@);
        assert(depth_fits(state@, normalized_symbol(markets@[j as int]@)));
        match order_book_depth(state, markets[j].as_str()) {
            Some(book) => {
                let ghost bv = book@;
                assert(bv.market_symbol == m);
                put_depth(&mut out, book);
                proof {
                    let nv = depths_view(out@);
                    assert forall|d: DepthModel| #[trigger] nv.contains(d) implies Some(d) == spec_depth_of(state@, d.market_symbol)
                        && is_listed(markets@, j + 1, d.market_symbol) by {
                        if d == bv {
                            assert(normalized_symbol(markets@[j as int]@) == d.market_symbol);
                        } else {
                            assert(prev.contains(d));
                            let t = choose|t: int| 0 <= t < j && normalized_symbol(#[trigger] markets@[t]@) == d.market_symbol;
                        }
                    }
                    assert forall|t: int| 0 <= t < j + 1 && (#[trigger] spec_depth_of(state@, normalized_symbol(markets@[t]@))) is Some
                        implies nv.contains(spec_depth_of(state@, normalized_symbol(markets@[t]@)).unwrap()) by {
                        if t < j {
                            let d = spec_depth_of(state@, normalized_symbol(markets@[t]@)).unwrap();
                            assert(prev.contains(d));
                            if d.market_symbol == bv.market_symbol {
                                assert(d == bv);
                            }
                        }
                    }
                }
            },
            None => {
                proof {
                    assert forall|d: DepthModel| #[trigger] prev.contains(d) implies is_listed(markets@, j + 1, d.market_symbol) by {
                        let t = choose|t: int| 0 <= t < j && normalized_symbol(#[trigger] markets@[t]@) == d.market_symbol;
                    }
                }
            },
        }
        j += 1;
    }
    proof {
        let dv = depths_view(out@);
        let mv = strings_view(markets@);
        assert forall|i: int| 0 <= i < dv.len() implies Some(#[trigger] dv[i]) == spec_depth_of(state@, dv[i].market_symbol)
            && exists|t: int| 0 <= t < mv.len() && normalized_symbol(#[trigger] mv[t]) == dv[i].market_symbol by {
            assert(dv.contains(dv[i]));
            let t = choose|t: int| 0 <= t < markets@.len() && normalized_symbol(#[trigger] markets@[t]@) == dv[i].market_symbol;
            assert(mv[t] == markets@[t]@);
        }
        assert forall|t: int| 0 <= t < mv.len() && (#[trigger] spec_depth_of(state@, normalized_symbol(mv[t]))) is Some
            implies depth_symbols(dv).contains(normalized_symbol(mv[t])) by {
            assert(mv[t] == markets@[t]@);
            let d = spec_depth_of(state@, normalized_symbol(markets@[t]@)).unwrap();
            assert(dv.contains(d));
            let i = choose|i: int| 0 <= i < dv.len() && dv[i] == d;
            assert(depth_symbols(dv)[i] == d.market_symbol);
        }
    }
    out
}

/// Adds `u` unless it is there.
fn add_user(v: &mut Vec<u128>, u: u128)
    requires
        no_repeats(old(v)@),
    ensures
        no_repeats(final(v)@),
        forall|x: u128| #[trigger] final(v)@.contains(x) <==> old(v)@.contains(x) || x == u,
{
    let mut i: usize = 0;
    while i < v.len()
        invariant
            i <= v.len(),
            v@ == old(v)@,
            no_repeats(v@),
            forall|j: int| 0 <= j < i ==> #[trigger] v@[j] != u,
        decreases v.len() - i,
    {
        if v[i] == u {
            assert(v@[i as int] == u);
            return;
        }
        i += 1;
    }
    let ghost prev = v@;
    v.push(u);
    proof {
        assert(v@ =~= prev.push(u));
        assert forall|x: u128| #[trigger] v@.contains(x) <==> prev.contains(x) || x == u by {
            if v@.contains(x) {
                let j = choose|j: int| 0 <= j < v@.len() && v@[j] == x;
                if j < prev.len() {
                    assert(prev[j] == x);
                }
            }
            if prev.contains(x) {
                let j = choose|j: int| 0 <= j < prev.len() && prev[j] == x;
                assert(v@[j] == x);
            }
            if x == u {
                assert(v@[prev.len() as int] == x);
            }
        }
    }
}

/// Adds market `m` unless it is there.
fn add_market(v: &mut Vec<String>, m: String)
    requires
        no_repeats(strings_view(old(v)@)),
    ensures
        no_repeats(strings_view(final(v)@)),
        forall|x: Seq<char>| #[trigger] strings_view(final(v)@).contains(x) <==> strings_view(old(v)@).contains(x) || x == m@,
{
    let ghost prev = strings_view(v@);
    let mut i: usize = 0;
    while i < v.len()
        invariant
            i <= v.len(),
            v@ == old(v)@,
            prev == strings_view(v@),
            no_repeats(prev),
            forall|j: int| 0 <= j < i ==> #[trigger] prev[j] != m@,
        decreases v.len() - i,
    {
        if v[i] == m {
            assert(prev[i as int] == m@);
            return;
        }
        i += 1;
    }
    let ghost mv = m@;
    v.push(m);
    proof {
        let nv = strings_view(v@);
        assert(nv =~= prev.push(mv));
        assert forall|x: Seq<char>| #[trigger] nv.contains(x) <==> prev.contains(x) || x == mv by {
            if nv.contains(x) {
                let j = choose|j: int| 0 <= j < nv.len() && nv[j] == x;
                if j < prev.len() {
                    assert(prev[j] == x);
                }
            }
            if prev.contains(x) {
                let j = choose|j: int| 0 <= j < prev.len() && prev[j] == x;
                assert(nv[j] == x);
            }
            if x == mv {
                assert(nv[prev.len() as int] == x);
            }
        }
    }
}

proof fn lemma_party_step(ts: Seq<Trade>, lo: int, hi: int)
    requires
        0 <= lo <= hi < ts.len(),
    ensures
        forall|u: u128| is_party(ts.subrange(lo, hi + 1), u) <==> is_party(ts.subrange(lo, hi), u)
            || ts[hi].buyer_user_id == u || ts[hi].seller_user_id == u,
{
    let a = ts.subrange(lo, hi);
    let b = ts.subrange(lo, hi + 1);
    assert forall|u: u128| is_party(b, u) <==> is_party(a, u) || ts[hi].buyer_user_id == u || ts[hi].seller_user_id == u by {
        if is_party(b, u) {
            let i = choose|i: int| 0 <= i < b.len() && trades_with(#[trigger] b[i], u);
            if i < a.len() {
                assert(a[i] == b[i]);
            }
        }
        if is_party(a, u) {
            let i = choose|i: int| 0 <= i < a.len() && trades_with(#[trigger] a[i], u);
            assert(a[i] == b[i]);
        }
        if ts[hi].buyer_user_id == u || ts[hi].seller_user_id == u {
            assert(b[hi - lo] == ts[hi]);
        }
    }
}

proof fn lemma_trade_market_step(s: StateModel, ts: Seq<Trade>, lo: int, hi: int)
    requires
        0 <= lo <= hi < ts.len(),
    ensures
        forall|m: Seq<char>| is_trade_market(s, ts.subrange(lo, hi + 1), m) <==> is_trade_market(s, ts.subrange(lo, hi), m)
            || (m.len() > 0 && trade_symbol(s, ts[hi]) == m),
{
    let a = ts.subrange(lo, hi);
    let b = ts.subrange(lo, hi + 1);
    assert forall|m: Seq<char>| is_trade_market(s, b, m) <==> is_trade_market(s, a, m) || (m.len() > 0 && trade_symbol(s, ts[hi]) == m) by {
        if is_trade_market(s, b, m) {
            let i = choose|i: int| 0 <= i < b.len() && trade_symbol(s, #[trigger] b[i]) == m;
            if i < a.len() {
                assert(a[i] == b[i]);
            }
        }
        if is_trade_market(s, a, m) {
            let i = choose|i: int| 0 <= i < a.len() && trade_symbol(s, #[trigger] a[i]) == m;
            assert(a[i] == b[i]);
        }
        if m.len() > 0 && trade_symbol(s, ts[hi]) == m {
            assert(b[hi - lo] == ts[hi]);
        }
    }
}

/// The symbol of the market a trade was made in (empty if unknown).
fn trade_market_symbol(state: &OrderEngineState, t: &Trade) -> (r: String)
    ensures
        r@ == trade_symbol(state@, *t),
{
    match find_market_by_id(&state.markets, t.market_id) {
        Some(k) => {
            assert(state@.markets[k as int] == state.markets@[k as int]@);
            state.markets[k].symbol.clone()
        },
        None => String::new(),
    }
}

/// The users and markets a command touched: users whose balances or open
/// orders may have changed, and markets whose books may have changed.
fn touched(
    state: &OrderEngineState,
    command: &Command,
    intents: &Vec<LedgerIntent>,
    trades_before: usize,
    books_before: &Vec<OrderBookDepth>,
) -> (r: (Vec<u128>, Vec<u128>, Vec<String>))
    ensures
        no_repeats(r.0@),
        no_repeats(r.1@),
        no_repeats(strings_view(r.2@)),
        forall|u: u128| #[trigger] r.0@.contains(u) <==> is_balance_user(state@, command@, intents@, trades_before as int, u),
        forall|u: u128| #[trigger] r.1@.contains(u) <==> is_open_order_user(state@, command@, trades_before as int, u),
        forall|m: Seq<char>| #[trigger] strings_view(r.2@).contains(m) <==> is_touched_market(state@, command@, depths_view(books_before@), trades_before as int, m),
{
    let ghost s = state@;
    let ghost c = command@;
    let ghost before = depths_view(books_before@);
    let mut balance_users: Vec<u128> = Vec::new();
    let mut open_users: Vec<u128> = Vec::new();
    let mut book_markets: Vec<String> = Vec::new();
    assert(strings_view(book_markets@) =~= Seq::<Seq<char>>::empty());
    let mut i: usize = 0;
    while i < intents.len()
        invariant
            i <= intents.len(),
            no_repeats(balance_users@),
            forall|u: u128| #[trigger] balance_users@.contains(u) <==> is_intent_user(intents@.take(i as int), u),
        decreases intents.len() - i,
    {
        add_user(&mut balance_users, intents[i].user_id);
        proof {
            let a = intents@.take(i as int);
            let b = intents@.take(i + 1);
            assert forall|u: u128| is_intent_user(b, u) <==> is_intent_user(a, u) || u == intents@[i as int].user_id by {
                if is_intent_user(b, u) {
                    let k = choose|k: int| 0 <= k < b.len() && #[trigger] b[k].user_id == u;
                    if k < a.len() {
                        assert(a[k] == b[k]);
                    }
                }
                if is_intent_user(a, u) {
                    let k = choose|k: int| 0 <= k < a.len() && #[trigger] a[k].user_id == u;
                    assert(a[k] == b[k]);
                }
                if u == intents@[i as int].user_id {
                    assert(b[i as int] == intents@[i as int]);
                }
            }
        }
        i += 1;
    }
    assert(intents@.take(intents.len() as int) =~= intents@);
    let mut i: usize = 0;
    while i < books_before.len()
        invariant
            i <= books_before.len(),
            before == depths_view(books_before@),
            no_repeats(strings_view(book_markets@)),
            forall|m: Seq<char>| #[trigger] strings_view(book_markets@).contains(m) <==> is_snapshot_market(before.take(i as int), m),
        decreases books_before.len() - i,
    {
        add_market(&mut book_markets, books_before[i].market_symbol.clone());
        proof {
            let a = before.take(i as int);
            let b = before.take(i + 1);
            assert forall|m: Seq<char>| is_snapshot_market(b, m) <==> is_snapshot_market(a, m) || m == before[i as int].market_symbol by {
                if is_snapshot_market(b, m) {
                    let k = choose|k: int| 0 <= k < b.len() && #[trigger] b[k].market_symbol == m;
                    if k < a.len() {
                        assert(a[k] == b[k]);
                    }
                }
                if is_snapshot_market(a, m) {
                    let k = choose|k: int| 0 <= k < a.len() && #[trigger] a[k].market_symbol == m;
                    assert(a[k] == b[k]);
                }
                if m == before[i as int].market_symbol {
                    assert(b[i as int] == before[i as int]);
                }
            }
        }
        i += 1;
    }
    assert(before.take(books_before.len() as int) =~= before);
    match command {
        Command::CreateOrder { user_id, market_symbol, .. } => {
            add_user(&mut balance_users, *user_id);
            add_user(&mut open_users, *user_id);
            add_market(&mut book_markets, normalize_symbol(market_symbol.as_str()));
        },
        Command::CancelOrder { user_id, .. } => {
            add_user(&mut balance_users, *user_id);
            add_user(&mut open_users, *user_id);
        },
        Command::CreditBalance { user_id, .. } => {
            add_user(&mut balance_users, *user_id);
        },
    }
    let start: usize = if trades_before < state.trades.len() { trades_before } else { state.trades.len() };
    assert(new_trades(s, trades_before as int) =~= s.trades.subrange(start as int, s.trades.len() as int));
    let mut t: usize = start;
    assert(s.trades.subrange(start as int, start as int) =~= Seq::<Trade>::empty());
    while t < state.trades.len()
        invariant
            start <= t <= state.trades.len(),
            s == state@,
            c == command@,
            before == depths_view(books_before@),
            no_repeats(balance_users@),
            no_repeats(open_users@),
            no_repeats(strings_view(book_markets@)),
            forall|u: u128| #[trigger] balance_users@.contains(u) <==> is_intent_user(intents@, u) || u == command_user(c)
                || is_party(s.trades.subrange(start as int, t as int), u),
            forall|u: u128| #[trigger] open_users@.contains(u) <==> (!(c is CreditBalance) && u == command_user(c))
                || is_party(s.trades.subrange(start as int, t as int), u),
            forall|m: Seq<char>| #[trigger] strings_view(book_markets@).contains(m) <==> is_snapshot_market(before, m)
                || (c matches CommandModel::CreateOrder { market_symbol, .. } && m == normalized_symbol(market_symbol))
                || is_trade_market(s, s.trades.subrange(start as int, t as int), m),
        decreases state.trades.len() - t,
    {
        let tr = &state.trades[t];
        add_user(&mut balance_users, tr.buyer_user_id);
        add_user(&mut balance_users, tr.seller_user_id);
        add_user(&mut open_users, tr.buyer_user_id);
        add_user(&mut open_users, tr.seller_user_id);
        let sym = trade_market_symbol(state, tr);
        let ghost sv = sym@;
        if !sym.as_str().is_empty() {
            add_market(&mut book_markets, sym);
        }
        proof {
            lemma_party_step(s.trades, start as int, t as int);
            lemma_trade_market_step(s, s.trades, start as int, t as int);
        }
        t += 1;
    }
    (balance_users, open_users, book_markets)
}

/// One trade event per trade made since the first `from`, in order.
fn trade_events(state: &OrderEngineState, from: usize) -> (r: Vec<ExchangeEvent>)
    ensures
        r@.len() == new_trades(state@, from as int).len(),
        forall|i: int| 0 <= i < r@.len() ==> is_trade_event(state@, new_trades(state@, from as int)[i], #[trigger] r@[i]),
{
    let ghost s = state@;
    let mut out: Vec<ExchangeEvent> = Vec::new();
    let start: usize = if from < state.trades.len() { from } else { state.trades.len() };
    assert(new_trades(s, from as int) =~= s.trades.subrange(start as int, s.trades.len() as int));
    let mut t: usize = start;
    while t < state.trades.len()
        invariant
            start <= t <= state.trades.len(),
            s == state@,
            out@.len() == t - start,
            forall|i: int| 0 <= i < out@.len() ==> is_trade_event(s, s.trades[start + i], #[trigger] out@[i]),
        decreases state.trades.len() - t,
    {
        let tr = &state.trades[t];
        let market_symbol = trade_market_symbol(state, tr);
        let view = TradeView {
            id: tr.id,
            market_id: tr.market_id,
            market_symbol,
            maker_order_id: tr.maker_order_id,
            taker_order_id: tr.taker_order_id,
            price: tr.price,
            quantity: tr.quantity,
            buyer_user_id: tr.buyer_user_id,
            seller_user_id: tr.seller_user_id,
            created_at: tr.created_at,
        };
        out.push(ExchangeEvent::TradeExecuted { trade: view });
        t += 1;
    }
    out
}

/// One book event for each listed market whose levels changed since its
/// snapshot.
fn book_events(state: &OrderEngineState, books_before: &Vec<OrderBookDepth>, markets: &Vec<String>) -> (r: Vec<ExchangeEvent>)
    requires
        forall|t: int| 0 <= t < markets@.len() ==> depth_fits(state@, normalized_symbol(#[trigger] markets@[t]@)),
        no_repeats(strings_view(markets@)),
    ensures
        forall|i: int| 0 <= i < r@.len() ==> is_book_event(state@, depths_view(books_before@), #[trigger] r@[i])
            && strings_view(markets@).contains(event_market(r@[i])),
        forall|i: int, j: int| 0 <= i < j < r@.len() ==> event_market(#[trigger] r@[i]) != event_market(#[trigger] r@[j]),
        forall|m: Seq<char>| #[trigger] strings_view(markets@).contains(m) && book_changed(state@, depths_view(books_before@), m)
            ==> exists|i: int| 0 <= i < r@.len() && event_market(#[trigger] r@[i]) == m,
{
    let ghost s = state@;
    let ghost before = depths_view(books_before@);
    let ghost ms = strings_view(markets@);
    let mut out: Vec<ExchangeEvent> = Vec::new();
    let mut j: usize = 0;
    while j < markets.len()
        invariant
            j <= markets.len(),
            s == state@,
            forall|t: int| 0 <= t < markets@.len() ==> depth_fits(s, normalized_symbol(#[trigger] markets@[t]@)),
            before == depths_view(books_before@),
            ms == strings_view(markets@),
            no_repeats(ms),
            forall|i: int| 0 <= i < out@.len() ==> is_book_event(s, before, #[trigger] out@[i])
                && exists|t: int| 0 <= t < j && ms[t] == event_market(out@[i]),
            forall|a: int, b: int| 0 <= a < b < out@.len() ==> event_market(#[trigger] out@[a]) != event_market(#[trigger] out@[b]),
            forall|t: int| 0 <= t < j && book_changed(s, before, #[trigger] ms[t])
                ==> exists|i: int| 0 <= i < out@.len() && event_market(#[trigger] out@[i]) == ms[t],
        decreases markets.len() - j,
    {
        let m = &markets[j];
        let ghost mv = ms[j as int];
        let pos = find_depth(books_before, m);
        assert(depth_fits(s, normalized_symbol(markets@[j as int]@)));
        let after = order_book_depth(state, m.as_str());
        let ghost bd = depth_before(before, mv);
        let ghost ad = depth_after(s, mv);
        proof {
            crate::memory::lemma_first_index_range(before, |d: DepthModel| d.market_symbol == mv);
        }
        let before_ref: Option<&OrderBookDepth> = match pos {
            Some(k) => Some(&books_before[k]),
            None => None,
        };
        let after_ref: Option<&OrderBookDepth> = after.as_ref();
        let updates = diff_book_levels(before_ref, after_ref);
        proof {
            assert(crate::helper::diff_book_levels::depth_or_empty(after_ref) == ad);
            assert(crate::helper::diff_book_levels::depth_or_empty(before_ref) == bd);
        }
        let ghost prev = out@;
        let ghost uv = updates@;
        assert(is_level_diff(level_map_of(bd), level_map_of(ad), uv));
        if updates.len() > 0 {
            let name = m.clone();
            out.push(ExchangeEvent::OrderBookUpdated { market_symbol: name, updates });
            proof {
                let e = out@[prev.len() as int];
                assert(event_market(e) == mv);
                assert(is_book_event(s, before, e));
                assert forall|i: int| 0 <= i < out@.len() implies is_book_event(s, before, #[trigger] out@[i])
                    && exists|t: int| 0 <= t < j + 1 && ms[t] == event_market(out@[i]) by {
                    if i < prev.len() {
                        assert(out@[i] == prev[i]);
                        let t = choose|t: int| 0 <= t < j && ms[t] == event_market(prev[i]);
                    } else {
                        assert(ms[j as int] == event_market(out@[i]));
                    }
                }
                assert forall|a: int, b: int| 0 <= a < b < out@.len() implies event_market(#[trigger] out@[a]) != event_market(#[trigger] out@[b]) by {
                    assert(out@[a] == prev[a]);
                    if b < prev.len() {
                        assert(out@[b] == prev[b]);
                    } else {
                        let t = choose|t: int| 0 <= t < j && ms[t] == event_market(prev[a]);
                        assert(ms[t] != ms[j as int]);
                    }
                }
                assert forall|t: int| 0 <= t < j + 1 && book_changed(s, before, #[trigger] ms[t])
                    implies exists|i: int| 0 <= i < out@.len() && event_market(#[trigger] out@[i]) == ms[t] by {
                    if t < j {
                        let i = choose|i: int| 0 <= i < prev.len() && event_market(#[trigger] prev[i]) == ms[t];
                        assert(out@[i] == prev[i]);
                    } else {
                        assert(event_market(out@[prev.len() as int]) == ms[t]);
                    }
                }
            }
        } else {
            proof {
                if book_changed(s, before, mv) {
                    let k = choose|k| level_changed(level_map_of(bd), level_map_of(ad), k);
                    assert(exists|i: int| 0 <= i < uv.len() && crate::helper::diff_book_levels::delta_key(#[trigger] uv[i]) == k);
                }
                assert forall|i: int| 0 <= i < out@.len() implies is_book_event(s, before, #[trigger] out@[i])
                    && exists|t: int| 0 <= t < j + 1 && ms[t] == event_market(out@[i]) by {
                    let t = choose|t: int| 0 <= t < j && ms[t] == event_market(out@[i]);
                }
            }
        }
        j += 1;
    }
    out
}

/// One open-orders event per user, in the users' order.
fn open_order_events(state: &OrderEngineState, users: &Vec<u128>) -> (r: Vec<ExchangeEvent>)
    ensures
        r@.len() == users@.len(),
        forall|i: int| 0 <= i < r@.len() ==> is_open_orders_event(state@, #[trigger] r@[i]) && event_user(r@[i]) == users@[i]
            && r@[i] is OpenOrdersUpdated,
{
    let mut out: Vec<ExchangeEvent> = Vec::new();
    let mut i: usize = 0;
    while i < users.len()
        invariant
            i <= users.len(),
            out@.len() == i,
            forall|k: int| 0 <= k < i ==> is_open_orders_event(state@, #[trigger] out@[k]) && event_user(out@[k]) == users@[k]
                && out@[k] is OpenOrdersUpdated,
        decreases users.len() - i,
    {
        let u = users[i];
        out.push(ExchangeEvent::OpenOrdersUpdated { user_id: u, orders: open_orders_for_user(state, u) });
        i += 1;
    }
    out
}

/// One balance event per user, in the users' order.
fn balance_events(state: &OrderEngineState, users: &Vec<u128>) -> (r: Vec<ExchangeEvent>)
    ensures
        r@.len() == users@.len(),
        forall|i: int| 0 <= i < r@.len() ==> is_balance_event(state@, #[trigger] r@[i]) && event_user(r@[i]) == users@[i]
            && r@[i] is BalanceUpdated,
{
    let mut out: Vec<ExchangeEvent> = Vec::new();
    let mut i: usize = 0;
    while i < users.len()
        invariant
            i <= users.len(),
            out@.len() == i,
            forall|k: int| 0 <= k < i ==> is_balance_event(state@, #[trigger] out@[k]) && event_user(out@[k]) == users@[k]
                && out@[k] is BalanceUpdated,
        decreases users.len() - i,
    {
        let u = users[i];
        out.push(ExchangeEvent::BalanceUpdated { user_id: u, balances: balances_for_user(state, u) });
        i += 1;
    }
    out
}

/// The trade events: one per new trade, in order.
pub open spec fn is_trade_part(s: StateModel, from: int, ev: Seq<ExchangeEvent>) -> bool {
    &&& ev.len() == new_trades(s, from).len()
    &&& forall|i: int| 0 <= i < ev.len() ==> is_trade_event(s, new_trades(s, from)[i], #[trigger] ev[i])
}

/// The book events: one for each touched market whose levels changed, each
/// carrying its level changes.
pub open spec fn is_book_part(s: StateModel, c: CommandModel, before: Seq<DepthModel>, from: int, ev: Seq<ExchangeEvent>) -> bool {
    &&& forall|i: int| 0 <= i < ev.len() ==> is_book_event(s, before, #[trigger] ev[i])
        && is_touched_market(s, c, before, from, event_market(ev[i]))
    &&& forall|i: int, j: int| 0 <= i < j < ev.len() ==> event_market(#[trigger] ev[i]) != event_market(#[trigger] ev[j])
    &&& forall|m: Seq<char>| is_touched_market(s, c, before, from, m) && #[trigger] book_changed(s, before, m)
        ==> exists|i: int| 0 <= i < ev.len() && event_market(#[trigger] ev[i]) == m
}

/// The open-order events: one for each user whose open orders may have
/// changed, with the user's open orders now.
pub open spec fn is_open_orders_part(s: StateModel, c: CommandModel, from: int, ev: Seq<ExchangeEvent>) -> bool {
    &&& forall|i: int| 0 <= i < ev.len() ==> is_open_orders_event(s, #[trigger] ev[i])
        && is_open_order_user(s, c, from, event_user(ev[i]))
    &&& forall|i: int, j: int| 0 <= i < j < ev.len() ==> event_user(#[trigger] ev[i]) != event_user(#[trigger] ev[j])
    &&& forall|u: u128| #[trigger] is_open_order_user(s, c, from, u) ==> exists|i: int| 0 <= i < ev.len() && event_user(#[trigger] ev[i]) == u
}

/// The balance events: one for each user whose balances may have changed,
/// with the user's balances now.
pub open spec fn is_balance_part(s: StateModel, c: CommandModel, intents: Seq<LedgerIntent>, from: int, ev: Seq<ExchangeEvent>) -> bool {
    &&& forall|i: int| 0 <= i < ev.len() ==> is_balance_event(s, #[trigger] ev[i])
        && is_balance_user(s, c, intents, from, event_user(ev[i]))
    &&& forall|i: int, j: int| 0 <= i < j < ev.len() ==> event_user(#[trigger] ev[i]) != event_user(#[trigger] ev[j])
    &&& forall|u: u128| #[trigger] is_balance_user(s, c, intents, from, u) ==> exists|i: int| 0 <= i < ev.len() && event_user(#[trigger] ev[i]) == u
}

/// The events of one command: trades, then book changes, then open orders,
/// then balances, split at `a`, `b` and `c`.
pub open spec fn is_event_log(
    s: StateModel,
    cmd: CommandModel,
    intents: Seq<LedgerIntent>,
    from: int,
    before: Seq<DepthModel>,
    ev: Seq<ExchangeEvent>,
    a: int,
    b: int,
    c: int,
) -> bool {
    &&& 0 <= a <= b <= c <= ev.len()
    &&& is_trade_part(s, from, ev.subrange(0, a))
    &&& is_book_part(s, cmd, before, from, ev.subrange(a, b))
    &&& is_open_orders_part(s, cmd, from, ev.subrange(b, c))
    &&& is_balance_part(s, cmd, intents, from, ev.subrange(c, ev.len() as int))
}

/// Everything a processed command publishes, from the state after it, the
/// intents it produced, the number of trades before it, and snapshots of
/// the books it could touch: the new trades in order; a level-change event
/// for each touched market whose levels changed; the open orders of each
/// user who placed, cancelled or traded; and the balances of each user
/// named by an intent, the issuer, and each trader. Within the last three
/// parts each market or user comes once, in an order left open.
pub fn build_exchange_events(
    state: &OrderEngineState,
    command: &Command,
    intents: &Vec<LedgerIntent>,
    trades_before: usize,
    books_before: &Vec<OrderBookDepth>,
) -> (r: Vec<ExchangeEvent>)
    requires
        forall|m: Seq<char>| #[trigger] is_touched_market(state@, command@, depths_view(books_before@), trades_before as int, m)
            ==> depth_fits(state@, normalized_symbol(m)),
    ensures
        exists|a: int, b: int, c: int|
            #[trigger] is_event_log(state@, command@, intents@, trades_before as int, depths_view(books_before@), r@, a, b, c),
{
    let ghost s = state@;
    let ghost cm = command@;
    let ghost before = depths_view(books_before@);
    let ghost from = trades_before as int;
    let (balance_users, open_users, book_markets) = touched(state, command, intents, trades_before, books_before);
    assert forall|t: int| 0 <= t < book_markets@.len() implies depth_fits(state@, normalized_symbol(#[trigger] book_markets@[t]@)) by {
        assert(strings_view(book_markets@)[t] == book_markets@[t]@);
        assert(strings_view(book_markets@).contains(book_markets@[t]@));
    }
    let mut events = trade_events(state, trades_before);
    let mut books = book_events(state, books_before, &book_markets);
    let mut opens = open_order_events(state, &open_users);
    let mut bals = balance_events(state, &balance_users);
    let ghost tv = events@;
    let ghost bv = books@;
    let ghost ov = opens@;
    let ghost lv = bals@;
    events.append(&mut books);
    events.append(&mut opens);
    events.append(&mut bals);
    proof {
        let ev = events@;
        let a = tv.len() as int;
        let b = a + bv.len();
        let c = b + ov.len();
        assert(ev =~= tv + bv + ov + lv);
        assert(ev.subrange(0, a) =~= tv);
        assert(ev.subrange(a, b) =~= bv);
        assert(ev.subrange(b, c) =~= ov);
        assert(ev.subrange(c, ev.len() as int) =~= lv);
        assert forall|m: Seq<char>| is_touched_market(s, cm, before, from, m) && #[trigger] book_changed(s, before, m)
            implies exists|i: int| 0 <= i < bv.len() && event_market(#[trigger] bv[i]) == m by {
            assert(strings_view(book_markets@).contains(m));
        }
        assert forall|i: int| 0 <= i < bv.len() implies is_book_event(s, before, #[trigger] bv[i])
            && is_touched_market(s, cm, before, from, event_market(bv[i])) by {
            assert(strings_view(book_markets@).contains(event_market(bv[i])));
        }
        assert forall|i: int, j: int| 0 <= i < j < ov.len() implies event_user(#[trigger] ov[i]) != event_user(#[trigger] ov[j]) by {
            assert(open_users@[i] != open_users@[j]);
        }
        assert forall|i: int| 0 <= i < ov.len() implies is_open_orders_event(s, #[trigger] ov[i])
            && is_open_order_user(s, cm, from, event_user(ov[i])) by {
            assert(open_users@.contains(open_users@[i]));
        }
        assert forall|u: u128| #[trigger] is_open_order_user(s, cm, from, u) implies exists|i: int| 0 <= i < ov.len() && event_user(#[trigger] ov[i]) == u by {
            assert(open_users@.contains(u));
            let i = choose|i: int| 0 <= i < open_users@.len() && open_users@[i] == u;
            assert(event_user(ov[i]) == u);
        }
        assert forall|i: int, j: int| 0 <= i < j < lv.len() implies event_user(#[trigger] lv[i]) != event_user(#[trigger] lv[j]) by {
            assert(balance_users@[i] != balance_users@[j]);
        }
        assert forall|i: int| 0 <= i < lv.len() implies is_balance_event(s, #[trigger] lv[i])
            && is_balance_user(s, cm, intents@, from, event_user(lv[i])) by {
            assert(balance_users@.contains(balance_users@[i]));
        }
        assert forall|u: u128| #[trigger] is_balance_user(s, cm, intents@, from, u) implies exists|i: int| 0 <= i < lv.len() && event_user(#[trigger] lv[i]) == u by {
            assert(balance_users@.contains(u));
            let i = choose|i: int| 0 <= i < balance_users@.len() && balance_users@[i] == u;
            assert(event_user(lv[i]) == u);
        }
        assert(is_event_log(s, cm, intents@, from, before, ev, a, b, c));
    }
    events
}

/// Whether the book of every market a command touched can be totalled in
/// `i64`, as building its events needs.
pub fn touched_books_fit(
    state: &OrderEngineState,
    command: &Command,
    intents: &Vec<LedgerIntent>,
    trades_before: usize,
    books_before: &Vec<OrderBookDepth>,
) -> (b: bool)
    ensures
        b == forall|m: Seq<char>| #[trigger] is_touched_market(state@, command@, depths_view(books_before@), trades_before as int, m)
            ==> depth_fits(state@, normalized_symbol(m)),
{
    let (_, _, markets) = touched(state, command, intents, trades_before, books_before);
    let ghost ms = strings_view(markets@);
    let mut i: usize = 0;
    while i < markets.len()
        invariant
            i <= markets.len(),
            ms == strings_view(markets@),
            forall|m: Seq<char>| #[trigger] ms.contains(m) <==> is_touched_market(state@, command@, depths_view(books_before@), trades_before as int, m),
            forall|t: int| 0 <= t < i ==> depth_fits(state@, normalized_symbol(#[trigger] ms[t])),
        decreases markets.len() - i,
    {
        let sym = normalize_symbol(markets[i].as_str());
        if !check_depth_fits(state, &sym) {
            assert(ms.contains(ms[i as int]));
            assert(is_touched_market(state@, command@, depths_view(books_before@), trades_before as int, ms[i as int]));
            return false;
        }
        i += 1;
    }
    assert forall|m: Seq<char>| #[trigger] is_touched_market(state@, command@, depths_view(books_before@), trades_before as int, m)
        implies depth_fits(state@, normalized_symbol(m)) by {
        assert(ms.contains(m));
        let t = choose|t: int| 0 <= t < ms.len() && ms[t] == m;
    }
    true
}

/// The snapshots of the listed markets, or `None` when the book of one of
/// them cannot be totalled in `i64`.
pub fn checked_snapshot_books(state: &OrderEngineState, markets: &Vec<String>) -> (r: Option<Vec<OrderBookDepth>>)
    ensures
        match r {
            Some(v) => is_books_snapshot(state@, strings_view(markets@), depths_view(v@)),
            None => exists|t: int| 0 <= t < markets@.len() && !depth_fits(state@, normalized_symbol(#[trigger] markets@[t]@)),
        },
{
    let mut i: usize = 0;
    while i < markets.len()
        invariant
            i <= markets.len(),
            forall|t: int| 0 <= t < i ==> depth_fits(state@, normalized_symbol(#[trigger] markets@[t]@)),
        decreases markets.len() - i,
    {
        let sym = normalize_symbol(markets[i].as_str());
        if !check_depth_fits(state, &sym) {
            assert(!depth_fits(state@, normalized_symbol(markets@[i as int]@)));
            return None;
        }
        i += 1;
    }
    Some(snapshot_books(state, markets))
}

/// The events of a command, or `None` when the book of a market it touched
/// cannot be totalled in `i64`.
pub fn checked_build_exchange_events(
    state: &OrderEngineState,
    command: &Command,
    intents: &Vec<LedgerIntent>,
    trades_before: usize,
    books_before: &Vec<OrderBookDepth>,
) -> (r: Option<Vec<ExchangeEvent>>)
    ensures
        r is Some ==> exists|a: int, b: int, c: int|
            #[trigger] is_event_log(state@, command@, intents@, trades_before as int, depths_view(books_before@), r.unwrap()@, a, b, c),
        r is None <==> !(forall|m: Seq<char>| #[trigger] is_touched_market(state@, command@, depths_view(books_before@), trades_before as int, m)
            ==> depth_fits(state@, normalized_symbol(m))),
{
    if !touched_books_fit(state, command, intents, trades_before, books_before) {
        return None;
    }
    let events = build_exchange_events(state, command, intents, trades_before, books_before);
    proof {
        let (a, b, c) = choose|a: int, b: int, c: int|
            #[trigger] is_event_log(state@, command@, intents@, trades_before as int, depths_view(books_before@), events@, a, b, c);
        assert(is_event_log(state@, command@, intents@, trades_before as int, depths_view(books_before@), events@, a, b, c));
        assert(exists|a: int, b: int, c: int|
            #[trigger] is_event_log(state@, command@, intents@, trades_before as int, depths_view(books_before@), events@, a, b, c));
    }
    let r = Some(events);
    assert(r.unwrap()@ == events@);
    r
}

} // verus!
