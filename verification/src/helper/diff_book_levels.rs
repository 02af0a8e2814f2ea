//! The price levels that changed between two depth snapshots of a book.
use vstd::prelude::*;
use crate::helper::level_map::{entries_map, entry_key, entry_value, get_entry, keys_unique, lemma_entries_map_lookup, level_map, level_map_of, lookup, LevelEntry};
use crate::queries::answer_query::{DepthModel, OrderBookDepth, PriceLevel};
use crate::types::BookSide;

verus! {

/// The new state of one level: a quantity and order count of zero mean the
/// level is gone.
#[derive(Clone, Copy, PartialEq, Eq, Structural, Debug)]
pub struct OrderBookLevelDelta {
    pub side: BookSide,
    pub price: i64,
    pub quantity: i64,
    pub order_count: u32,
}

pub type LevelMap = Map<(BookSide, i64), (i64, u32)>;

pub open spec fn delta_key(d: OrderBookLevelDelta) -> (BookSide, i64) {
    (d.side, d.price)
}

pub open spec fn delta_value(d: OrderBookLevelDelta) -> (i64, u32) {
    (d.quantity, d.order_count)
}

/// Bids sort before asks.
pub open spec fn side_rank(s: BookSide) -> int {
    match s {
        BookSide::Bid => 0,
        BookSide::Ask => 1,
    }
}

/// Ordering of keys: by side, then by price.
pub open spec fn key_lt(a: (BookSide, i64), b: (BookSide, i64)) -> bool {
    side_rank(a.0) < side_rank(b.0) || (side_rank(a.0) == side_rank(b.0) && a.1 < b.1)
}

/// Strictly ascending by (side, price).
pub open spec fn sorted_by_key(ds: Seq<OrderBookLevelDelta>) -> bool {
    forall|i: int, j: int| 0 <= i < j < ds.len() ==> key_lt(delta_key(#[trigger] ds[i]), delta_key(#[trigger] ds[j]))
}

/// The level at `k` differs between the two maps.
pub open spec fn level_changed(before: LevelMap, after: LevelMap, k: (BookSide, i64)) -> bool {
    lookup(before, k) != lookup(after, k)
}

/// The new state of the level at `k`: zeros when it is gone.
pub open spec fn after_or_zero(after: LevelMap, k: (BookSide, i64)) -> (i64, u32) {
    match lookup(after, k) {
        Some(v) => v,
        None => (0, 0),
    }
}

/// `ds` lists, ordered by (side, price), one delta for each level that
/// changed, carrying that level's new state.
pub open spec fn is_level_diff(before: LevelMap, after: LevelMap, ds: Seq<OrderBookLevelDelta>) -> bool {
    &&& sorted_by_key(ds)
    &&& forall|i: int| 0 <= i < ds.len() ==> level_changed(before, after, delta_key(#[trigger] ds[i]))
        && delta_value(ds[i]) == after_or_zero(after, delta_key(ds[i]))
    &&& forall|k: (BookSide, i64)| level_changed(before, after, k) ==> exists|i: int| 0 <= i < ds.len() && delta_key(#[trigger] ds[i]) == k
}

/// An empty snapshot.
pub open spec fn empty_depth() -> DepthModel {
    DepthModel { market_symbol: Seq::empty(), bids: Seq::empty(), asks: Seq::empty() }
}

pub open spec fn depth_or_empty(d: Option<&OrderBookDepth>) -> DepthModel {
    match d {
        Some(x) => x@,
        None => empty_depth(),
    }
}

pub open spec fn has_key(ds: Seq<OrderBookLevelDelta>, k: (BookSide, i64)) -> bool {
    exists|x: OrderBookLevelDelta| ds.contains(x) && delta_key(x) == k
}

fn key_less(a_side: BookSide, a_price: i64, b_side: BookSide, b_price: i64) -> (r: bool)
    ensures
        r == key_lt((a_side, a_price), (b_side, b_price)),
{
    let ra: u8 = match a_side {
        BookSide::Bid => 0,
        BookSide::Ask => 1,
    };
    let rb: u8 = match b_side {
        BookSide::Bid => 0,
        BookSide::Ask => 1,
    };
    ra < rb || (ra == rb && a_price < b_price)
}

/// Inserts `d` at its place by (side, price); its key is not there yet.
fn insert_sorted(out: &mut Vec<OrderBookLevelDelta>, d: OrderBookLevelDelta)
    requires
        sorted_by_key(old(out)@),
        !has_key(old(out)@, delta_key(d)),
    ensures
        sorted_by_key(final(out)@),
        forall|x: OrderBookLevelDelta| final(out)@.contains(x) <==> (old(out)@.contains(x) || x == d),
{
    let ghost v = out@;
    let mut k: usize = 0;
    while k < out.len() && key_less(out[k].side, out[k].price, d.side, d.price)
        invariant
            k <= out.len(),
            out@ == v,
            forall|j: int| 0 <= j < k ==> key_lt(delta_key(#[trigger] v[j]), delta_key(d)),
        decreases out.len() - k,
    {
        k += 1;
    }
    out.insert(k, d);
    let ghost nv = out@;
    assert(nv =~= v.insert(k as int, d));
    proof {
        if k < v.len() {
            assert(v.contains(v[k as int]));
            assert(delta_key(v[k as int]) != delta_key(d));
            assert(key_lt(delta_key(d), delta_key(v[k as int])));
        }
        assert forall|i: int, j: int| 0 <= i < j < nv.len() implies key_lt(delta_key(#[trigger] nv[i]), delta_key(#[trigger] nv[j])) by {
            if i < k && j < k {
                assert(nv[i] == v[i] && nv[j] == v[j]);
            } else if i < k && j == k {
            } else if i < k {
                assert(nv[i] == v[i] && nv[j] == v[j - 1]);
            } else if i == k {
                assert(nv[j] == v[j - 1]);
                if j - 1 > k {
                    assert(key_lt(delta_key(v[k as int]), delta_key(v[j - 1])));
                }
            } else {
                assert(nv[i] == v[i - 1] && nv[j] == v[j - 1]);
            }
        }
        assert forall|x: OrderBookLevelDelta| nv.contains(x) <==> (v.contains(x) || x == d) by {
            if nv.contains(x) {
                let i = choose|i: int| 0 <= i < nv.len() && nv[i] == x;
                if i < k {
                    assert(v[i] == x);
                } else if i > k {
                    assert(v[i - 1] == x);
                }
            }
            if v.contains(x) {
                let i = choose|i: int| 0 <= i < v.len() && v[i] == x;
                if i < k {
                    assert(nv[i] == x);
                } else {
                    assert(nv[i + 1] == x);
                }
            }
            if x == d {
                assert(nv[k as int] == x);
            }
        }
    }
}

/// Whether `k` is the key of one of the first `n` entries.
pub open spec fn seen_key(es: Seq<LevelEntry>, n: int, k: (BookSide, i64)) -> bool {
    exists|t: int| 0 <= t < n && entry_key(#[trigger] es[t]) == k
}

/// The levels that changed between two snapshots of a book (a missing
/// snapshot counts as empty), ordered by side (bids first) and price, each
/// with its new quantity and order count (zeros for a level that is gone).
pub fn diff_book_levels(before: Option<&OrderBookDepth>, after: Option<&OrderBookDepth>) -> (r: Vec<OrderBookLevelDelta>)
    ensures
        is_level_diff(level_map_of(depth_or_empty(before)), level_map_of(depth_or_empty(after)), r@),
{
    let empty = OrderBookDepth { market_symbol: String::new(), bids: Vec::new(), asks: Vec::new() };
    proof {
        assert(empty@.bids =~= Seq::<PriceLevel>::empty());
        assert(empty@.asks =~= Seq::<PriceLevel>::empty());
        assert(empty@.market_symbol =~= Seq::<char>::empty());
    }
    let bm = match before {
        Some(b) => level_map(b),
        None => level_map(&empty),
    };
    let am = match after {
        Some(a) => level_map(a),
        None => level_map(&empty),
    };
    let ghost bmap = entries_map(bm@);
    let ghost amap = entries_map(am@);
    let mut out: Vec<OrderBookLevelDelta> = Vec::new();
    let mut i: usize = 0;
    while i < bm.len()
        invariant
            i <= bm.len(),
            keys_unique(bm@),
            keys_unique(am@),
            bmap == entries_map(bm@),
            amap == entries_map(am@),
            sorted_by_key(out@),
            forall|x: OrderBookLevelDelta| #[trigger] out@.contains(x) ==> level_changed(bmap, amap, delta_key(x))
                && delta_value(x) == after_or_zero(amap, delta_key(x)) && seen_key(bm@, i as int, delta_key(x)),
            forall|t: int| 0 <= t < i && level_changed(bmap, amap, entry_key(#[trigger] bm@[t])) ==> has_key(out@, entry_key(bm@[t])),
        decreases bm.len() - i,
    {
        let e = bm[i];
        let ghost k = entry_key(e);
        let ghost prev = out@;
        proof {
            lemma_entries_map_lookup(bm@, k);
            assert(lookup(bmap, k) == Some(entry_value(e)));
        }
        let now = get_entry(&am, e.side, e.price);
        let changed = match now {
            Some((q, c)) => q != e.quantity || c != e.order_count,
            None => true,
        };
        if changed {
            let (q, c) = match now {
                Some(v) => v,
                None => (0, 0),
            };
            let d = OrderBookLevelDelta { side: e.side, price: e.price, quantity: q, order_count: c };
            proof {
                if has_key(out@, k) {
                    let x = choose|x: OrderBookLevelDelta| out@.contains(x) && delta_key(x) == k;
                    let t = choose|t: int| 0 <= t < i && entry_key(#[trigger] bm@[t]) == k;
                    assert(entry_key(bm@[t]) != entry_key(bm@[i as int]));
                }
            }
            insert_sorted(&mut out, d);
            proof {
                assert(out@.contains(d));
                assert forall|x: OrderBookLevelDelta| #[trigger] out@.contains(x) implies level_changed(bmap, amap, delta_key(x))
                    && delta_value(x) == after_or_zero(amap, delta_key(x)) && seen_key(bm@, i + 1, delta_key(x)) by {
                    if x == d {
                        assert(entry_key(bm@[i as int]) == delta_key(x));
                    } else {
                        assert(prev.contains(x));
                        let t = choose|t: int| 0 <= t < i && entry_key(#[trigger] bm@[t]) == delta_key(x);
                        assert(entry_key(bm@[t]) == delta_key(x));
                    }
                }
            }
        } else {
            proof {
                assert forall|x: OrderBookLevelDelta| #[trigger] out@.contains(x) implies seen_key(bm@, i + 1, delta_key(x)) by {
                    let t = choose|t: int| 0 <= t < i && entry_key(#[trigger] bm@[t]) == delta_key(x);
                    assert(entry_key(bm@[t]) == delta_key(x));
                }
            }
        }
        proof {
            assert forall|t: int| 0 <= t < i + 1 && level_changed(bmap, amap, entry_key(#[trigger] bm@[t])) implies has_key(out@, entry_key(bm@[t])) by {
                if t == i {
                    let x = choose|x: OrderBookLevelDelta| out@.contains(x) && delta_key(x) == k;
                } else {
                    assert(has_key(prev, entry_key(bm@[t])));
                    let x = choose|x: OrderBookLevelDelta| prev.contains(x) && delta_key(x) == entry_key(bm@[t]);
                    assert(out@.contains(x));
                }
            }
        }
        i += 1;
    }
    proof {
        assert forall|k: (BookSide, i64)| level_changed(bmap, amap, k) && bmap.dom().contains(k) implies has_key(out@, k) by {
            lemma_entries_map_lookup(bm@, k);
            let t = choose|t: int| 0 <= t < bm@.len() && entry_key(#[trigger] bm@[t]) == k;
        }
    }
    let mut j: usize = 0;
    while j < am.len()
        invariant
            j <= am.len(),
            keys_unique(bm@),
            keys_unique(am@),
            bmap == entries_map(bm@),
            amap == entries_map(am@),
            sorted_by_key(out@),
            forall|x: OrderBookLevelDelta| #[trigger] out@.contains(x) ==> level_changed(bmap, amap, delta_key(x))
                && delta_value(x) == after_or_zero(amap, delta_key(x))
                && (seen_key(bm@, bm@.len() as int, delta_key(x)) || seen_key(am@, j as int, delta_key(x))),
            forall|k: (BookSide, i64)| level_changed(bmap, amap, k) && bmap.dom().contains(k) ==> has_key(out@, k),
            forall|t: int| 0 <= t < j && level_changed(bmap, amap, entry_key(#[trigger] am@[t])) ==> has_key(out@, entry_key(am@[t])),
        decreases am.len() - j,
    {
        let e = am[j];
        let ghost k = entry_key(e);
        let ghost prev = out@;
        proof {
            lemma_entries_map_lookup(am@, k);
            lemma_entries_map_lookup(bm@, k);
            assert(lookup(amap, k) == Some(entry_value(e)));
        }
        let was = get_entry(&bm, e.side, e.price);
        if was.is_none() {
            let d = OrderBookLevelDelta { side: e.side, price: e.price, quantity: e.quantity, order_count: e.order_count };
            proof {
                if has_key(out@, k) {
                    let x = choose|x: OrderBookLevelDelta| out@.contains(x) && delta_key(x) == k;
                    if seen_key(bm@, bm@.len() as int, k) {
                        let t = choose|t: int| 0 <= t < bm@.len() && entry_key(#[trigger] bm@[t]) == k;
                        assert(bmap.dom().contains(k));
                    } else {
                        let t = choose|t: int| 0 <= t < j && entry_key(#[trigger] am@[t]) == k;
                        assert(entry_key(am@[t]) != entry_key(am@[j as int]));
                    }
                }
            }
            insert_sorted(&mut out, d);
            proof {
                assert(out@.contains(d));
                assert forall|x: OrderBookLevelDelta| #[trigger] out@.contains(x) implies level_changed(bmap, amap, delta_key(x))
                    && delta_value(x) == after_or_zero(amap, delta_key(x))
                    && (seen_key(bm@, bm@.len() as int, delta_key(x)) || seen_key(am@, j + 1, delta_key(x))) by {
                    if x == d {
                        assert(entry_key(am@[j as int]) == delta_key(x));
                    } else {
                        assert(prev.contains(x));
                        if !seen_key(bm@, bm@.len() as int, delta_key(x)) {
                            let t = choose|t: int| 0 <= t < j && entry_key(#[trigger] am@[t]) == delta_key(x);
                            assert(entry_key(am@[t]) == delta_key(x));
                        }
                    }
                }
            }
        } else {
            proof {
                assert forall|x: OrderBookLevelDelta| #[trigger] out@.contains(x) implies
                    (seen_key(bm@, bm@.len() as int, delta_key(x)) || seen_key(am@, j + 1, delta_key(x))) by {
                    if !seen_key(bm@, bm@.len() as int, delta_key(x)) {
                        let t = choose|t: int| 0 <= t < j && entry_key(#[trigger] am@[t]) == delta_key(x);
                        assert(entry_key(am@[t]) == delta_key(x));
                    }
                }
            }
        }
        proof {
            assert forall|kk: (BookSide, i64)| level_changed(bmap, amap, kk) && bmap.dom().contains(kk) implies has_key(out@, kk) by {
                assert(has_key(prev, kk));
                let x = choose|x: OrderBookLevelDelta| prev.contains(x) && delta_key(x) == kk;
                assert(out@.contains(x));
            }
            assert forall|t: int| 0 <= t < j + 1 && level_changed(bmap, amap, entry_key(#[trigger] am@[t])) implies has_key(out@, entry_key(am@[t])) by {
                if t == j {
                    if was.is_none() {
                        let x = choose|x: OrderBookLevelDelta| out@.contains(x) && delta_key(x) == k;
                    }
                } else {
                    assert(has_key(prev, entry_key(am@[t])));
                    let x = choose|x: OrderBookLevelDelta| prev.contains(x) && delta_key(x) == entry_key(am@[t]);
                    assert(out@.contains(x));
                }
            }
        }
        j += 1;
    }
    proof {
        assert forall|i: int| 0 <= i < out@.len() implies level_changed(bmap, amap, delta_key(#[trigger] out@[i]))
            && delta_value(out@[i]) == after_or_zero(amap, delta_key(out@[i])) by {
            assert(out@.contains(out@[i]));
        }
        assert forall|k: (BookSide, i64)| level_changed(bmap, amap, k) implies exists|i: int| 0 <= i < out@.len() && delta_key(#[trigger] out@[i]) == k by {
            if !bmap.dom().contains(k) {
                lemma_entries_map_lookup(am@, k);
                let t = choose|t: int| 0 <= t < am@.len() && entry_key(#[trigger] am@[t]) == k;
            }
            let x = choose|x: OrderBookLevelDelta| out@.contains(x) && delta_key(x) == k;
            let i = choose|i: int| 0 <= i < out@.len() && out@[i] == x;
            assert(delta_key(out@[i]) == k);
        }
    }
    out
}

/// The map the deltas turn `m` into, in order: a delta with zero quantity
/// and count removes its level, any other sets it.
pub open spec fn apply_deltas(m: LevelMap, ds: Seq<OrderBookLevelDelta>) -> LevelMap
    decreases ds.len(),
{
    if ds.len() == 0 {
        m
    } else {
        let r = apply_deltas(m, ds.drop_last());
        let d = ds.last();
        if d.quantity == 0 && d.order_count == 0 {
            r.remove(delta_key(d))
        } else {
            r.insert(delta_key(d), delta_value(d))
        }
    }
}

/// What the deltas leave at one key, when no two deltas share a key.
proof fn lemma_apply_deltas_at(m: LevelMap, ds: Seq<OrderBookLevelDelta>, k: (BookSide, i64))
    requires
        forall|i: int, j: int| 0 <= i < j < ds.len() ==> delta_key(#[trigger] ds[i]) != delta_key(#[trigger] ds[j]),
    ensures
        (forall|i: int| 0 <= i < ds.len() ==> delta_key(#[trigger] ds[i]) != k) ==> lookup(apply_deltas(m, ds), k) == lookup(m, k),
        forall|i: int| 0 <= i < ds.len() && delta_key(#[trigger] ds[i]) == k ==> lookup(apply_deltas(m, ds), k) == if ds[i].quantity == 0
            && ds[i].order_count == 0 {
            None::<(i64, u32)>
        } else {
            Some(delta_value(ds[i]))
        },
    decreases ds.len(),
{
    if ds.len() > 0 {
        let t = ds.drop_last();
        assert forall|i: int, j: int| 0 <= i < j < t.len() implies delta_key(#[trigger] t[i]) != delta_key(#[trigger] t[j]) by {
            assert(t[i] == ds[i] && t[j] == ds[j]);
        }
        lemma_apply_deltas_at(m, t, k);
        if delta_key(ds.last()) != k {
            assert forall|i: int| 0 <= i < t.len() && delta_key(#[trigger] t[i]) == k implies delta_key(ds[i]) == k by {
                assert(t[i] == ds[i]);
            }
            if forall|i: int| 0 <= i < ds.len() ==> delta_key(#[trigger] ds[i]) != k {
                assert forall|i: int| 0 <= i < t.len() implies delta_key(#[trigger] t[i]) != k by {
                    assert(t[i] == ds[i]);
                }
            }
            assert forall|i: int| 0 <= i < ds.len() && delta_key(#[trigger] ds[i]) == k implies lookup(apply_deltas(m, ds), k)
                == if ds[i].quantity == 0 && ds[i].order_count == 0 { None::<(i64, u32)> } else { Some(delta_value(ds[i])) } by {
                assert(i < t.len());
                assert(t[i] == ds[i]);
            }
        } else {
            assert forall|i: int| 0 <= i < ds.len() && delta_key(#[trigger] ds[i]) == k implies i == ds.len() - 1 by {
                if i < ds.len() - 1 {
                    assert(delta_key(ds[i]) != delta_key(ds[ds.len() - 1]));
                }
            }
        }
    }
}

/// Rebuilding a book from its deltas: applying the deltas of two snapshots
/// to the first gives the second, when the second has no level with zero
/// quantity and zero orders.
pub proof fn law_deltas_rebuild_after(before: LevelMap, after: LevelMap, ds: Seq<OrderBookLevelDelta>)
    requires
        is_level_diff(before, after, ds),
        forall|k: (BookSide, i64)| #[trigger] after.dom().contains(k) ==> after[k] != (0i64, 0u32),
    ensures
        apply_deltas(before, ds) =~= after,
{
    assert forall|i: int, j: int| 0 <= i < j < ds.len() implies delta_key(#[trigger] ds[i]) != delta_key(#[trigger] ds[j]) by {
        assert(key_lt(delta_key(ds[i]), delta_key(ds[j])));
    }
    let r = apply_deltas(before, ds);
    assert forall|k: (BookSide, i64)| lookup(r, k) == lookup(after, k) by {
        lemma_apply_deltas_at(before, ds, k);
        if level_changed(before, after, k) {
            let i = choose|i: int| 0 <= i < ds.len() && delta_key(#[trigger] ds[i]) == k;
            assert(delta_value(ds[i]) == after_or_zero(after, k));
            if after.dom().contains(k) {
                assert(after[k] != (0i64, 0u32));
            }
        } else {
            assert forall|i: int| 0 <= i < ds.len() implies delta_key(#[trigger] ds[i]) != k by {
                assert(level_changed(before, after, delta_key(ds[i])));
            }
        }
    }
    assert forall|k: (BookSide, i64)| r.dom().contains(k) <==> after.dom().contains(k) by {
        assert(lookup(r, k) == lookup(after, k));
    }
    assert forall|k: (BookSide, i64)| #[trigger] r.dom().contains(k) implies r[k] == after[k] by {
        assert(lookup(r, k) == lookup(after, k));
    }
}

} // verus!
