//! Keeping the bot's resting orders on its target ladder: which orders to
//! cancel and which levels to fill, within a per-cycle budget.
use vstd::prelude::*;
use crate::bot::config::BotConfig;
use crate::bot::engine::{abs, ladder_fits, max_int, min_int, spec_target_ladder, target_ladder, LevelKey, MarketRuntime, Side};
use crate::external::{ascii_case_eq, eq_ignore_ascii_case};
use crate::memory::{first_index, lemma_first_index_found, lemma_first_index_none};
use crate::types::{OpenOrderModel, OpenOrderView, OrderType};

verus! {

/// An order to cancel, with its urgency (higher first).
#[derive(Clone, Copy, PartialEq, Eq, Structural, Debug)]
pub struct CancelEntry {
    pub priority: i128,
    pub order_id: u64,
}

/// The order kept at a target level.
#[derive(Clone, Copy, PartialEq, Eq, Structural, Debug)]
pub struct Occupant {
    pub key: LevelKey,
    pub order_id: u64,
}

/// What one sync of a market does: the orders to cancel, in order, then the
/// levels to fill, in order.
#[derive(Debug)]
pub struct SyncPlan {
    pub cancels: Vec<u64>,
    pub placements: Vec<LevelKey>,
}

/// Inserting `x` into `s` before the first element it goes before.
pub open spec fn insert_ordered<T>(s: Seq<T>, x: T, goes_before: spec_fn(T, T) -> bool) -> Seq<T>
    decreases s.len(),
{
    if s.len() == 0 {
        seq![x]
    } else if goes_before(x, s[0]) {
        seq![x] + s
    } else {
        seq![s[0]] + insert_ordered(s.drop_first(), x, goes_before)
    }
}

/// Insertion sort: a stable sort in which elements that go before others
/// come first.
pub open spec fn sort_ordered<T>(s: Seq<T>, goes_before: spec_fn(T, T) -> bool) -> Seq<T>
    decreases s.len(),
{
    if s.len() == 0 {
        s
    } else {
        insert_ordered(sort_ordered(s.drop_last(), goes_before), s.last(), goes_before)
    }
}

pub proof fn lemma_insert_len<T>(s: Seq<T>, x: T, goes_before: spec_fn(T, T) -> bool)
    ensures
        insert_ordered(s, x, goes_before).len() == s.len() + 1,
    decreases s.len(),
{
    if s.len() > 0 && !goes_before(x, s[0]) {
        lemma_insert_len(s.drop_first(), x, goes_before);
    }
}

pub proof fn lemma_sort_len<T>(s: Seq<T>, goes_before: spec_fn(T, T) -> bool)
    ensures
        sort_ordered(s, goes_before).len() == s.len(),
    decreases s.len(),
{
    if s.len() > 0 {
        lemma_sort_len(s.drop_last(), goes_before);
        lemma_insert_len(sort_ordered(s.drop_last(), goes_before), s.last(), goes_before);
    }
}

/// Inserting at the first position whose element `x` goes before.
pub proof fn lemma_insert_at<T>(s: Seq<T>, x: T, goes_before: spec_fn(T, T) -> bool, k: int)
    requires
        0 <= k <= s.len(),
        forall|j: int| 0 <= j < k ==> !goes_before(x, #[trigger] s[j]),
        k < s.len() ==> goes_before(x, s[k]),
    ensures
        insert_ordered(s, x, goes_before) == s.insert(k, x),
    decreases k,
{
    if k == 0 {
        if s.len() == 0 {
            assert(s.insert(0, x) =~= seq![x]);
        } else {
            assert(s.insert(0, x) =~= seq![x] + s);
        }
    } else {
        let t = s.drop_first();
        assert forall|j: int| 0 <= j < k - 1 implies !goes_before(x, #[trigger] t[j]) by {
            assert(t[j] == s[j + 1]);
        }
        if k - 1 < t.len() {
            assert(t[k - 1] == s[k]);
        }
        lemma_insert_at(t, x, goes_before, k - 1);
        assert(!goes_before(x, s[0]));
        assert(seq![s[0]] + t.insert(k - 1, x) =~= s.insert(k, x));
    }
}

/// Higher priority first.
pub open spec fn more_urgent() -> spec_fn(CancelEntry, CancelEntry) -> bool {
    |a: CancelEntry, b: CancelEntry| a.priority > b.priority
}

/// Nearer to the mid first.
pub open spec fn nearer(mid: i64) -> spec_fn(LevelKey, LevelKey) -> bool {
    |a: LevelKey, b: LevelKey| abs(a.price - mid) < abs(b.price - mid)
}

pub open spec fn side_of_type(t: OrderType) -> Side {
    match t {
        OrderType::Buy => Side::Bid,
        OrderType::Sell => Side::Ask,
    }
}

pub open spec fn key_of(o: OpenOrderModel) -> LevelKey {
    LevelKey { side: side_of_type(o.order_type), price: o.price }
}

/// A bid at or above the mid, or an ask at or below it.
pub open spec fn is_crossed(k: LevelKey, mid: i64) -> bool {
    match k.side {
        Side::Bid => k.price >= mid,
        Side::Ask => k.price <= mid,
    }
}

/// Where the order kept at `key` is recorded.
pub open spec fn occupant_index(occ: Seq<Occupant>, key: LevelKey) -> Option<int> {
    first_index(occ, |x: Occupant| x.key == key)
}

/// Going through the bot's orders in order: a crossed order or one off the
/// ladder is queued for cancelling (crossed ones a million ahead); the first
/// order at a ladder level is kept, and a later one at the same level takes
/// its place while the earlier one is queued.
pub open spec fn classify(mine: Seq<OpenOrderModel>, targets: Seq<LevelKey>, mid: i64) -> (Seq<CancelEntry>, Seq<Occupant>)
    decreases mine.len(),
{
    if mine.len() == 0 {
        (Seq::empty(), Seq::empty())
    } else {
        let (q, occ) = classify(mine.drop_last(), targets, mid);
        let o = mine.last();
        let key = key_of(o);
        let dist = abs(o.price - mid);
        if is_crossed(key, mid) || !targets.contains(key) {
            let priority = dist + if is_crossed(key, mid) { 1_000_000int } else { 0 };
            (q.push(CancelEntry { priority: priority as i128, order_id: o.id }), occ)
        } else {
            match occupant_index(occ, key) {
                Some(j) => (
                    q.push(CancelEntry { priority: dist as i128, order_id: occ[j].order_id }),
                    occ.update(j, Occupant { key, order_id: o.id }),
                ),
                None => (q, occ.push(Occupant { key, order_id: o.id })),
            }
        }
    }
}

/// The bot's orders in the runtime's market (matched ignoring ASCII case).
pub open spec fn orders_in(open: Seq<OpenOrderModel>, symbol: Seq<char>) -> Seq<OpenOrderModel> {
    open.filter(|o: OpenOrderModel| ascii_case_eq(o.market_symbol, symbol))
}

pub open spec fn open_views_of(v: Seq<OpenOrderView>) -> Seq<OpenOrderModel> {
    v.map_values(|o: OpenOrderView| o@)
}

/// Ladder levels with no order kept on them.
pub open spec fn missing_levels(targets: Seq<LevelKey>, occ: Seq<Occupant>) -> Seq<LevelKey> {
    targets.filter(|k: LevelKey| occupant_index(occ, k) is None)
}

/// The number of cancels allowed: no more than queued, than the budget, or
/// than would leave fewer resting orders than half the ladder (at least 4).
pub open spec fn max_cancels(queued: int, budget: int, resting: int, targets: int) -> int {
    let min_keep = max_int(targets / 2, 4);
    min_int(min_int(queued, budget), resting - min_int(min_keep, resting))
}

/// The plan for one sync: the most urgent cancels allowed, then the nearest
/// missing levels within what is left of the budget.
pub open spec fn spec_plan_sync(config: BotConfig, mid: i64, tick: i64, symbol: Seq<char>, open: Seq<OpenOrderModel>) -> (Seq<u64>, Seq<LevelKey>) {
    let targets = spec_target_ladder(config, mid, tick);
    let mine = orders_in(open, symbol);
    let (q, occ) = classify(mine, targets, mid);
    let budget = max_int(config.max_actions as int, 1);
    let n = max_cancels(q.len() as int, budget, mine.len() as int, max_int(config.orders as int, 2));
    let cancels = sort_ordered(q, more_urgent()).take(n).map_values(|c: CancelEntry| c.order_id);
    let missing = sort_ordered(missing_levels(targets, occ), nearer(mid));
    (cancels, missing.take(min_int(budget - n, missing.len() as int)))
}

fn insert_by_urgency(out: &mut Vec<CancelEntry>, x: CancelEntry)
    ensures
        final(out)@ == insert_ordered(old(out)@, x, more_urgent()),
{
    let mut k: usize = 0;
    while k < out.len() && out[k].priority >= x.priority
        invariant
            k <= out.len(),
            out@ == old(out)@,
            forall|j: int| 0 <= j < k ==> !more_urgent()(x, #[trigger] out@[j]),
        decreases out.len() - k,
    {
        k += 1;
    }
    proof {
        lemma_insert_at(out@, x, more_urgent(), k as int);
    }
    out.insert(k, x);
}

/// The distance of a price from the mid, without overflow.
fn dist_to(price: i64, mid: i64) -> (d: i128)
    ensures
        d == abs(price - mid),
{
    let p = price as i128;
    let m = mid as i128;
    if p >= m { p - m } else { m - p }
}

fn insert_by_nearness(out: &mut Vec<LevelKey>, x: LevelKey, mid: i64)
    ensures
        final(out)@ == insert_ordered(old(out)@, x, nearer(mid)),
{
    let dx = dist_to(x.price, mid);
    let mut k: usize = 0;
    while k < out.len() && dist_to(out[k].price, mid) <= dx
        invariant
            k <= out.len(),
            out@ == old(out)@,
            dx == abs(x.price - mid),
            forall|j: int| 0 <= j < k ==> !nearer(mid)(x, #[trigger] out@[j]),
        decreases out.len() - k,
    {
        k += 1;
    }
    proof {
        lemma_insert_at(out@, x, nearer(mid), k as int);
    }
    out.insert(k, x);
}

/// The whole ladder, nearest to the mid first, for seeding an empty book.
pub fn seed_levels(config: &BotConfig, runtime: &MarketRuntime) -> (r: Vec<LevelKey>)
    requires
        ladder_fits(*config, runtime.mid, runtime.market.price_tick_size),
    ensures
        r@ == sort_ordered(spec_target_ladder(*config, runtime.mid, runtime.market.price_tick_size), nearer(runtime.mid)),
{
    let targets = target_ladder(config, runtime);
    let mut out: Vec<LevelKey> = Vec::new();
    let mut t: usize = 0;
    assert(targets@.take(0) =~= Seq::<LevelKey>::empty());
    while t < targets.len()
        invariant
            t <= targets.len(),
            out@ == sort_ordered(targets@.take(t as int), nearer(runtime.mid)),
        decreases targets.len() - t,
    {
        assert(targets@.take(t + 1).drop_last() =~= targets@.take(t as int));
        insert_by_nearness(&mut out, targets[t], runtime.mid);
        t += 1;
    }
    assert(targets@.take(targets.len() as int) =~= targets@);
    out
}

fn contains_key(ks: &Vec<LevelKey>, k: LevelKey) -> (b: bool)
    ensures
        b == ks@.contains(k),
{
    let mut i: usize = 0;
    while i < ks.len()
        invariant
            i <= ks.len(),
            forall|j: int| 0 <= j < i ==> #[trigger] ks@[j] != k,
        decreases ks.len() - i,
    {
        if ks[i] == k {
            assert(ks@[i as int] == k);
            return true;
        }
        i += 1;
    }
    false
}

fn find_occupant(occ: &Vec<Occupant>, key: LevelKey) -> (r: Option<usize>)
    ensures
        match r {
            Some(i) => occupant_index(occ@, key) == Some(i as int),
            None => occupant_index(occ@, key) is None,
        },
{
    let ghost p = |x: Occupant| x.key == key;
    let mut i: usize = 0;
    while i < occ.len()
        invariant
            i <= occ.len(),
            p == (|x: Occupant| x.key == key),
            forall|j: int| 0 <= j < i ==> !p(#[trigger] occ@[j]),
        decreases occ.len() - i,
    {
        if occ[i].key == key {
            proof {
                lemma_first_index_found(occ@, p, i as int);
            }
            return Some(i);
        }
        i += 1;
    }
    proof {
        lemma_first_index_none(occ@, p);
    }
    None
}

/// What one sync of the runtime's market does, given the bot's open orders
/// (in all markets): the most urgent cancels the budget allows, then the
/// nearest missing ladder levels within what is left of it.
pub fn plan_sync(config: &BotConfig, runtime: &MarketRuntime, open: &Vec<OpenOrderView>) -> (p: SyncPlan)
    requires
        ladder_fits(*config, runtime.mid, runtime.market.price_tick_size),
    ensures
        (p.cancels@, p.placements@) == spec_plan_sync(*config, runtime.mid, runtime.market.price_tick_size,
            runtime.market.symbol@, open_views_of(open@)),
{
    let targets = target_ladder(config, runtime);
    let mid = runtime.mid;
    let ghost symbol = runtime.market.symbol@;
    let ghost ov = open_views_of(open@);
    let ghost pred = |o: OpenOrderModel| ascii_case_eq(o.market_symbol, symbol);
    let mut queue: Vec<CancelEntry> = Vec::new();
    let mut occ: Vec<Occupant> = Vec::new();
    let mut mine: usize = 0;
    let mut i: usize = 0;
    proof {
        reveal_with_fuel(Seq::<_>::filter, 1);
        assert(ov.take(0).filter(pred) =~= Seq::<OpenOrderModel>::empty());
        assert(queue@ =~= Seq::<CancelEntry>::empty());
        assert(occ@ =~= Seq::<Occupant>::empty());
    }
    while i < open.len()
        invariant
            i <= open.len(),
            mid == runtime.mid,
            symbol == runtime.market.symbol@,
            ov == open_views_of(open@),
            pred == (|o: OpenOrderModel| ascii_case_eq(o.market_symbol, symbol)),
            (queue@, occ@) == classify(ov.take(i as int).filter(pred), targets@, mid),
            mine == ov.take(i as int).filter(pred).len(),
            mine <= i,
        decreases open.len() - i,
    {
        let o = &open[i];
        proof {
            reveal_with_fuel(Seq::<_>::filter, 1);
            assert(ov.take(i + 1).drop_last() =~= ov.take(i as int));
            assert(ov.take(i + 1).last() == o@);
        }
        if eq_ignore_ascii_case(o.market_symbol.as_str(), runtime.market.symbol.as_str()) {
            let ghost before = ov.take(i as int).filter(pred);
            assert(ov.take(i + 1).filter(pred) == before.push(o@));
            assert(before.push(o@).drop_last() =~= before);
            mine += 1;
            let side = match o.order_type {
                OrderType::Buy => Side::Bid,
                OrderType::Sell => Side::Ask,
            };
            let key = LevelKey { side, price: o.price };
            let crossed = match side {
                Side::Bid => o.price >= mid,
                Side::Ask => o.price <= mid,
            };
            let dist = dist_to(o.price, mid);
            if crossed || !contains_key(&targets, key) {
                let priority: i128 = if crossed { dist + 1_000_000 } else { dist };
                queue.push(CancelEntry { priority, order_id: o.id });
            } else {
                match find_occupant(&occ, key) {
                    Some(j) => {
                        let existing = occ[j].order_id;
                        queue.push(CancelEntry { priority: dist, order_id: existing });
                        occ.set(j, Occupant { key, order_id: o.id });
                    },
                    None => {
                        occ.push(Occupant { key, order_id: o.id });
                    },
                }
            }
        } else {
            assert(ov.take(i + 1).filter(pred) == ov.take(i as int).filter(pred));
        }
        i += 1;
    }
    assert(ov.take(open.len() as int) =~= ov);
    let mut sorted: Vec<CancelEntry> = Vec::new();
    let mut k: usize = 0;
    assert(queue@.take(0) =~= Seq::<CancelEntry>::empty());
    while k < queue.len()
        invariant
            k <= queue.len(),
            sorted@ == sort_ordered(queue@.take(k as int), more_urgent()),
        decreases queue.len() - k,
    {
        assert(queue@.take(k + 1).drop_last() =~= queue@.take(k as int));
        insert_by_urgency(&mut sorted, queue[k]);
        k += 1;
    }
    assert(queue@.take(queue.len() as int) =~= queue@);
    proof {
        lemma_sort_len(queue@, more_urgent());
    }
    let ghost tp = |key: LevelKey| occupant_index(occ@, key) is None;
    let mut missing: Vec<LevelKey> = Vec::new();
    let mut t: usize = 0;
    proof {
        reveal_with_fuel(Seq::<_>::filter, 1);
        assert(targets@.take(0).filter(tp) =~= Seq::<LevelKey>::empty());
    }
    while t < targets.len()
        invariant
            t <= targets.len(),
            tp == (|key: LevelKey| occupant_index(occ@, key) is None),
            missing@ == sort_ordered(targets@.take(t as int).filter(tp), nearer(mid)),
        decreases targets.len() - t,
    {
        let key = targets[t];
        proof {
            reveal_with_fuel(Seq::<_>::filter, 1);
            assert(targets@.take(t + 1).drop_last() =~= targets@.take(t as int));
            assert(targets@.take(t + 1).last() == key);
        }
        if find_occupant(&occ, key).is_none() {
            let ghost before = targets@.take(t as int).filter(tp);
            assert(targets@.take(t + 1).filter(tp) == before.push(key));
            assert(before.push(key).drop_last() =~= before);
            insert_by_nearness(&mut missing, key, mid);
        }
        t += 1;
    }
    assert(targets@.take(targets.len() as int) =~= targets@);
    let budget: usize = if config.max_actions > 1 { config.max_actions as usize } else { 1 };
    let n_targets: usize = if config.orders > 2 { config.orders as usize } else { 2 };
    let half: usize = n_targets / 2;
    let min_keep: usize = if half > 4 { half } else { 4 };
    let keep: usize = if min_keep < mine { min_keep } else { mine };
    let a: usize = if queue.len() < budget { queue.len() } else { budget };
    let room: usize = mine - keep;
    let n: usize = if a < room { a } else { room };
    let mut cancels: Vec<u64> = Vec::new();
    let mut c: usize = 0;
    while c < n
        invariant
            c <= n,
            n <= sorted@.len(),
            cancels@ == sorted@.take(c as int).map_values(|e: CancelEntry| e.order_id),
        decreases n - c,
    {
        cancels.push(sorted[c].order_id);
        c += 1;
        assert(cancels@ =~= sorted@.take(c as int).map_values(|e: CancelEntry| e.order_id));
    }
    let left: usize = budget - n;
    let m: usize = if left < missing.len() { left } else { missing.len() };
    let mut placements: Vec<LevelKey> = Vec::new();
    let mut j: usize = 0;
    while j < m
        invariant
            j <= m,
            m <= missing@.len(),
            placements@ == missing@.take(j as int),
        decreases m - j,
    {
        placements.push(missing[j]);
        j += 1;
        assert(placements@ =~= missing@.take(j as int));
    }
    SyncPlan { cancels, placements }
}

/// Every element of an insertion is the inserted one or was there before.
pub proof fn lemma_insert_elems<T>(s: Seq<T>, x: T, goes_before: spec_fn(T, T) -> bool)
    ensures
        forall|i: int| 0 <= i < insert_ordered(s, x, goes_before).len() ==> #[trigger] insert_ordered(s, x, goes_before)[i] == x
            || s.contains(insert_ordered(s, x, goes_before)[i]),
    decreases s.len(),
{
    lemma_insert_len(s, x, goes_before);
    if s.len() > 0 && !goes_before(x, s[0]) {
        let t = s.drop_first();
        lemma_insert_elems(t, x, goes_before);
        let r = insert_ordered(s, x, goes_before);
        assert forall|i: int| 0 <= i < r.len() implies #[trigger] r[i] == x || s.contains(r[i]) by {
            if i == 0 {
                assert(s[0] == r[0]);
            } else {
                let e = insert_ordered(t, x, goes_before)[i - 1];
                assert(r[i] == e);
                if e != x {
                    let j = choose|j: int| 0 <= j < t.len() && t[j] == e;
                    assert(s[j + 1] == e);
                }
            }
        }
    } else if s.len() > 0 {
        let r = insert_ordered(s, x, goes_before);
        assert forall|i: int| 0 <= i < r.len() implies #[trigger] r[i] == x || s.contains(r[i]) by {
            if i > 0 {
                assert(r[i] == s[i - 1]);
            }
        }
    }
}

/// Keys never decrease along the sequence.
pub open spec fn ascending_by<T>(s: Seq<T>, key: spec_fn(T) -> int) -> bool {
    forall|i: int, j: int| 0 <= i < j < s.len() ==> key(#[trigger] s[i]) <= key(#[trigger] s[j])
}

/// Inserting into a sequence ascending by a key, with "goes before" meaning
/// a smaller key, keeps it ascending.
pub proof fn lemma_insert_ascending<T>(s: Seq<T>, x: T, goes_before: spec_fn(T, T) -> bool, key: spec_fn(T) -> int)
    requires
        forall|a: T, b: T| #[trigger] goes_before(a, b) <==> key(a) < key(b),
        ascending_by(s, key),
    ensures
        ascending_by(insert_ordered(s, x, goes_before), key),
    decreases s.len(),
{
    let r = insert_ordered(s, x, goes_before);
    if s.len() == 0 {
    } else if goes_before(x, s[0]) {
        assert forall|i: int, j: int| 0 <= i < j < r.len() implies key(#[trigger] r[i]) <= key(#[trigger] r[j]) by {
            if i == 0 {
                assert(key(s[0]) <= key(s[j - 1]) || j - 1 == 0);
            } else {
                assert(r[i] == s[i - 1] && r[j] == s[j - 1]);
            }
        }
    } else {
        let t = s.drop_first();
        assert(ascending_by(t, key)) by {
            assert forall|i: int, j: int| 0 <= i < j < t.len() implies key(#[trigger] t[i]) <= key(#[trigger] t[j]) by {
                assert(t[i] == s[i + 1] && t[j] == s[j + 1]);
            }
        }
        lemma_insert_ascending(t, x, goes_before, key);
        lemma_insert_elems(t, x, goes_before);
        let it = insert_ordered(t, x, goes_before);
        assert forall|i: int, j: int| 0 <= i < j < r.len() implies key(#[trigger] r[i]) <= key(#[trigger] r[j]) by {
            if i == 0 {
                assert(r[j] == it[j - 1]);
                if it[j - 1] != x {
                    let k = choose|k: int| 0 <= k < t.len() && t[k] == it[j - 1];
                    assert(s[k + 1] == t[k]);
                }
            } else {
                assert(r[i] == it[i - 1] && r[j] == it[j - 1]);
            }
        }
    }
}

/// Insertion sort yields a sequence ascending by the key.
pub proof fn lemma_sort_ascending<T>(s: Seq<T>, goes_before: spec_fn(T, T) -> bool, key: spec_fn(T) -> int)
    requires
        forall|a: T, b: T| #[trigger] goes_before(a, b) <==> key(a) < key(b),
    ensures
        ascending_by(sort_ordered(s, goes_before), key),
    decreases s.len(),
{
    if s.len() > 0 {
        lemma_sort_ascending(s.drop_last(), goes_before, key);
        lemma_insert_ascending(sort_ordered(s.drop_last(), goes_before), s.last(), goes_before, key);
    }
}

/// Budget: one sync makes at most `max_actions` (at least one) cancels and
/// placements together.
pub proof fn law_sync_within_budget(config: BotConfig, mid: i64, tick: i64, symbol: Seq<char>, open: Seq<OpenOrderModel>)
    ensures
        spec_plan_sync(config, mid, tick, symbol, open).0.len() + spec_plan_sync(config, mid, tick, symbol, open).1.len()
            <= max_int(config.max_actions as int, 1),
{
    let targets = spec_target_ladder(config, mid, tick);
    let mine = orders_in(open, symbol);
    let (q, occ) = classify(mine, targets, mid);
    lemma_sort_len(q, more_urgent());
    lemma_sort_len(missing_levels(targets, occ), nearer(mid));
}

/// Never wiping the book: the cancels of one sync leave at least half the
/// ladder's order count (at least 4) of the bot's orders in the market
/// resting, or all of them when there are fewer.
pub proof fn law_sync_keeps_depth(config: BotConfig, mid: i64, tick: i64, symbol: Seq<char>, open: Seq<OpenOrderModel>)
    ensures
        orders_in(open, symbol).len() - spec_plan_sync(config, mid, tick, symbol, open).0.len()
            >= min_int(max_int(max_int(config.orders as int, 2) / 2, 4), orders_in(open, symbol).len() as int),
{
    let targets = spec_target_ladder(config, mid, tick);
    let mine = orders_in(open, symbol);
    let (q, occ) = classify(mine, targets, mid);
    lemma_sort_len(q, more_urgent());
}

/// Nearest first: the levels one sync fills are in order of distance from
/// the mid.
pub proof fn law_sync_fills_nearest_first(config: BotConfig, mid: i64, tick: i64, symbol: Seq<char>, open: Seq<OpenOrderModel>)
    ensures
        ascending_by(spec_plan_sync(config, mid, tick, symbol, open).1, |k: LevelKey| abs(k.price - mid)),
{
    let targets = spec_target_ladder(config, mid, tick);
    let mine = orders_in(open, symbol);
    let (q, occ) = classify(mine, targets, mid);
    let key = |k: LevelKey| abs(k.price - mid);
    let gb = nearer(mid);
    assert forall|a: LevelKey, b: LevelKey| #[trigger] gb(a, b) <==> key(a) < key(b) by {}
    lemma_sort_ascending(missing_levels(targets, occ), gb, key);
    let sm = sort_ordered(missing_levels(targets, occ), gb);
    let p = spec_plan_sync(config, mid, tick, symbol, open).1;
    assert forall|i: int, j: int| 0 <= i < j < p.len() implies key(#[trigger] p[i]) <= key(#[trigger] p[j]) by {
        assert(p[i] == sm[i] && p[j] == sm[j]);
    }
}

/// Most urgent first: in the cancel queue of one sync, every order chosen
/// for cancelling is at least as urgent as every order left queued.
pub proof fn law_sync_cancels_most_urgent(config: BotConfig, mid: i64, tick: i64, symbol: Seq<char>, open: Seq<OpenOrderModel>)
    ensures
        ({
            let targets = spec_target_ladder(config, mid, tick);
            let (q, occ) = classify(orders_in(open, symbol), targets, mid);
            let sq = sort_ordered(q, more_urgent());
            let n = spec_plan_sync(config, mid, tick, symbol, open).0.len();
            forall|i: int, j: int| 0 <= i < n <= j < sq.len() ==> #[trigger] sq[i].priority >= #[trigger] sq[j].priority
        }),
{
    let targets = spec_target_ladder(config, mid, tick);
    let (q, occ) = classify(orders_in(open, symbol), targets, mid);
    let key = |c: CancelEntry| -(c.priority as int);
    let gb = more_urgent();
    assert forall|a: CancelEntry, b: CancelEntry| #[trigger] gb(a, b) <==> key(a) < key(b) by {}
    lemma_sort_ascending(q, gb, key);
    lemma_sort_len(q, gb);
    let sq = sort_ordered(q, gb);
    assert forall|i: int, j: int| 0 <= i < j < sq.len() implies #[trigger] sq[i].priority >= #[trigger] sq[j].priority by {
        assert(key(sq[i]) <= key(sq[j]));
    }
}

/// How many orders one sync cancels: as many as are queued, but no more
/// than the action budget (`max_actions`, at least one), and never so many
/// that fewer than half the ladder's order count (at least 4) of the bot's
/// resting orders in the market would remain, or all of them when there
/// are fewer than that.
pub proof fn law_sync_cancel_count(config: BotConfig, mid: i64, tick: i64, symbol: Seq<char>, open: Seq<OpenOrderModel>)
    ensures
        ({
            let resting = orders_in(open, symbol).len() as int;
            let queued = classify(orders_in(open, symbol), spec_target_ladder(config, mid, tick), mid).0.len() as int;
            let budget = if config.max_actions as int >= 1 { config.max_actions as int } else { 1 };
            let ladder = if config.orders as int >= 2 { config.orders as int } else { 2 };
            let keep = if ladder / 2 >= 4 { ladder / 2 } else { 4 };
            let kept = if keep <= resting { keep } else { resting };
            let n = spec_plan_sync(config, mid, tick, symbol, open).0.len() as int;
            &&& n <= queued && n <= budget && n <= resting - kept
            &&& (n == queued || n == budget || n == resting - kept)
        }),
{
    let targets = spec_target_ladder(config, mid, tick);
    let mine = orders_in(open, symbol);
    let (q, occ) = classify(mine, targets, mid);
    lemma_sort_len(q, more_urgent());
}

/// Sorting keeps only elements of the sequence sorted.
pub proof fn lemma_sort_elems<T>(s: Seq<T>, goes_before: spec_fn(T, T) -> bool)
    ensures
        forall|i: int| 0 <= i < sort_ordered(s, goes_before).len() ==> s.contains(#[trigger] sort_ordered(s, goes_before)[i]),
    decreases s.len(),
{
    lemma_sort_len(s, goes_before);
    if s.len() > 0 {
        let init = s.drop_last();
        lemma_sort_elems(init, goes_before);
        let si = sort_ordered(init, goes_before);
        lemma_insert_elems(si, s.last(), goes_before);
        let r = sort_ordered(s, goes_before);
        assert forall|i: int| 0 <= i < r.len() implies s.contains(#[trigger] r[i]) by {
            if r[i] == s.last() {
                assert(s[s.len() - 1] == r[i]);
            } else {
                let j = choose|j: int| 0 <= j < si.len() && si[j] == r[i];
                assert(init.contains(si[j]));
                let k = choose|k: int| 0 <= k < init.len() && init[k] == r[i];
                assert(s[k] == r[i]);
            }
        }
    }
}

/// What a filter keeps is taken from the sequence.
pub proof fn lemma_filter_from<T>(s: Seq<T>, p: spec_fn(T) -> bool)
    ensures
        forall|i: int| 0 <= i < s.filter(p).len() ==> s.contains(#[trigger] s.filter(p)[i]) && p(s.filter(p)[i]),
    decreases s.len(),
{
    reveal(Seq::filter);
    if s.len() > 0 {
        let init = s.drop_last();
        lemma_filter_from(init, p);
        let fi = init.filter(p);
        let f = s.filter(p);
        assert forall|i: int| 0 <= i < f.len() implies s.contains(#[trigger] f[i]) && p(f[i]) by {
            if i < fi.len() {
                assert(f[i] == fi[i]);
                let k = choose|k: int| 0 <= k < init.len() && init[k] == fi[i];
                assert(s[k] == fi[i]);
            } else {
                assert(f[i] == s.last());
                assert(s[s.len() - 1] == s.last());
            }
        }
    }
}

/// How many levels one sync fills: the ladder levels with no order kept on
/// them, nearest first, as many as the budget left after the cancels
/// allows.
pub proof fn law_sync_placement_count(config: BotConfig, mid: i64, tick: i64, symbol: Seq<char>, open: Seq<OpenOrderModel>)
    ensures
        ({
            let targets = spec_target_ladder(config, mid, tick);
            let occ = classify(orders_in(open, symbol), targets, mid).1;
            let empty_levels = missing_levels(targets, occ).len() as int;
            let budget = if config.max_actions as int >= 1 { config.max_actions as int } else { 1 };
            let p = spec_plan_sync(config, mid, tick, symbol, open);
            let left = budget - p.0.len();
            &&& left >= 0
            &&& p.1.len() == (if left <= empty_levels { left } else { empty_levels })
            &&& forall|i: int| 0 <= i < p.1.len() ==> #[trigger] targets.contains(p.1[i]) && occupant_index(occ, p.1[i]) is None
        }),
{
    let targets = spec_target_ladder(config, mid, tick);
    let mine = orders_in(open, symbol);
    let (q, occ) = classify(mine, targets, mid);
    lemma_sort_len(q, more_urgent());
    let ml = missing_levels(targets, occ);
    lemma_sort_len(ml, nearer(mid));
    lemma_sort_elems(ml, nearer(mid));
    let sm = sort_ordered(ml, nearer(mid));
    let p = spec_plan_sync(config, mid, tick, symbol, open);
    let pk = |k: LevelKey| occupant_index(occ, k) is None;
    lemma_filter_from(targets, pk);
    assert forall|i: int| 0 <= i < p.1.len() implies #[trigger] targets.contains(p.1[i]) && occupant_index(occ, p.1[i]) is None by {
        assert(p.1[i] == sm[i]);
        assert(ml.contains(sm[i]));
        let k = choose|k: int| 0 <= k < ml.len() && ml[k] == sm[i];
        assert(targets.contains(ml[k]) && pk(ml[k]));
    }
}

} // verus!
