//! The levels of a depth snapshot keyed by side and price.
use vstd::prelude::*;
use crate::queries::answer_query::{DepthModel, OrderBookDepth, PriceLevel};
use crate::types::BookSide;

verus! {

/// The level at one (side, price) key of a level map.
#[derive(Clone, Copy, PartialEq, Eq, Structural, Debug)]
pub struct LevelEntry {
    pub side: BookSide,
    pub price: i64,
    pub quantity: i64,
    pub order_count: u32,
}

pub open spec fn entry_key(e: LevelEntry) -> (BookSide, i64) {
    (e.side, e.price)
}

pub open spec fn entry_value(e: LevelEntry) -> (i64, u32) {
    (e.quantity, e.order_count)
}

/// The map a list of entries stands for; a later entry replaces an earlier
/// one with the same key.
pub open spec fn entries_map(es: Seq<LevelEntry>) -> Map<(BookSide, i64), (i64, u32)>
    decreases es.len(),
{
    if es.len() == 0 {
        Map::empty()
    } else {
        entries_map(es.drop_last()).insert(entry_key(es.last()), entry_value(es.last()))
    }
}

/// No two entries share a key.
pub open spec fn keys_unique(es: Seq<LevelEntry>) -> bool {
    forall|i: int, j: int| 0 <= i < j < es.len() ==> entry_key(#[trigger] es[i]) != entry_key(#[trigger] es[j])
}

/// Writing the levels of one side into a map, in order.
pub open spec fn put_levels(m: Map<(BookSide, i64), (i64, u32)>, side: BookSide, levels: Seq<PriceLevel>) -> Map<(BookSide, i64), (i64, u32)>
    decreases levels.len(),
{
    if levels.len() == 0 {
        m
    } else {
        put_levels(m, side, levels.drop_last()).insert(
            (side, levels.last().price),
            (levels.last().quantity, levels.last().order_count),
        )
    }
}

/// The levels of a depth snapshot keyed by (side, price): the bids, then
/// the asks, a later level replacing an earlier one at the same key.
pub open spec fn level_map_of(d: DepthModel) -> Map<(BookSide, i64), (i64, u32)> {
    put_levels(put_levels(Map::empty(), BookSide::Bid, d.bids), BookSide::Ask, d.asks)
}

/// What a map holds at `k`, if anything.
pub open spec fn lookup(m: Map<(BookSide, i64), (i64, u32)>, k: (BookSide, i64)) -> Option<(i64, u32)> {
    if m.dom().contains(k) {
        Some(m[k])
    } else {
        None
    }
}

/// Replacing the entry at `i` by one with the same key sets that key.
proof fn lemma_entries_map_update(es: Seq<LevelEntry>, i: int, e: LevelEntry)
    requires
        keys_unique(es),
        0 <= i < es.len(),
        entry_key(es[i]) == entry_key(e),
    ensures
        entries_map(es.update(i, e)) =~= entries_map(es).insert(entry_key(e), entry_value(e)),
    decreases es.len(),
{
    let u = es.update(i, e);
    if i == es.len() - 1 {
        assert(u.drop_last() =~= es.drop_last());
    } else {
        assert(u.drop_last() =~= es.drop_last().update(i, e));
        assert(keys_unique(es.drop_last()));
        lemma_entries_map_update(es.drop_last(), i, e);
        assert(entry_key(es[i]) != entry_key(es[es.len() - 1]));
    }
}

/// With distinct keys, the map holds exactly the keys of the entries, each
/// with its entry's value.
pub proof fn lemma_entries_map_lookup(es: Seq<LevelEntry>, k: (BookSide, i64))
    requires
        keys_unique(es),
    ensures
        entries_map(es).dom().contains(k) <==> exists|i: int| 0 <= i < es.len() && entry_key(#[trigger] es[i]) == k,
        forall|i: int| 0 <= i < es.len() && entry_key(#[trigger] es[i]) == k ==> entries_map(es)[k] == entry_value(es[i]),
    decreases es.len(),
{
    if es.len() > 0 {
        let d = es.drop_last();
        assert(keys_unique(d));
        lemma_entries_map_lookup(d, k);
        if entries_map(es).dom().contains(k) && k != entry_key(es.last()) {
            let j = choose|j: int| 0 <= j < d.len() && entry_key(#[trigger] d[j]) == k;
            assert(es[j] == d[j]);
        }
        assert forall|i: int| 0 <= i < es.len() && entry_key(#[trigger] es[i]) == k implies entries_map(es)[k] == entry_value(es[i]) by {
            if i < es.len() - 1 {
                assert(es[i] == d[i]);
                assert(entry_key(es[i]) != entry_key(es[es.len() - 1]));
            }
        }
        if exists|i: int| 0 <= i < es.len() && entry_key(#[trigger] es[i]) == k {
            let i = choose|i: int| 0 <= i < es.len() && entry_key(#[trigger] es[i]) == k;
            if i < es.len() - 1 {
                assert(es[i] == d[i]);
            }
        }
    }
}

/// Sets `(e.side, e.price)` to `e`'s values.
fn put_entry(es: &mut Vec<LevelEntry>, e: LevelEntry)
    requires
        keys_unique(old(es)@),
    ensures
        keys_unique(final(es)@),
        entries_map(final(es)@) =~= entries_map(old(es)@).insert(entry_key(e), entry_value(e)),
{
    let mut i: usize = 0;
    while i < es.len()
        invariant
            i <= es.len(),
            es@ == old(es)@,
            keys_unique(es@),
            forall|j: int| 0 <= j < i ==> entry_key(#[trigger] es@[j]) != entry_key(e),
        decreases es.len() - i,
    {
        if es[i].side == e.side && es[i].price == e.price {
            let ghost before = es@;
            proof {
                lemma_entries_map_update(es@, i as int, e);
            }
            es.set(i, e);
            assert forall|a: int, b: int| 0 <= a < b < es@.len() implies entry_key(#[trigger] es@[a]) != entry_key(#[trigger] es@[b]) by {
                assert(entry_key(es@[a]) == entry_key(before[a]));
                assert(entry_key(es@[b]) == entry_key(before[b]));
            }
            return;
        }
        i += 1;
    }
    let ghost before = es@;
    es.push(e);
    assert(es@.drop_last() =~= before);
    assert forall|a: int, b: int| 0 <= a < b < es@.len() implies entry_key(#[trigger] es@[a]) != entry_key(#[trigger] es@[b]) by {
        if b == before.len() {
            assert(entry_key(before[a]) != entry_key(e));
        } else {
            assert(es@[a] == before[a] && es@[b] == before[b]);
        }
    }
}

/// Looks up the level at (side, price).
pub fn get_entry(es: &Vec<LevelEntry>, side: BookSide, price: i64) -> (r: Option<(i64, u32)>)
    requires
        keys_unique(es@),
    ensures
        r == lookup(entries_map(es@), (side, price)),
{
    proof {
        lemma_entries_map_lookup(es@, (side, price));
    }
    let mut i: usize = 0;
    while i < es.len()
        invariant
            i <= es.len(),
            keys_unique(es@),
            forall|j: int| 0 <= j < i ==> entry_key(#[trigger] es@[j]) != (side, price),
        decreases es.len() - i,
    {
        if es[i].side == side && es[i].price == price {
            assert(entry_key(es@[i as int]) == (side, price));
            proof {
                lemma_entries_map_lookup(es@, (side, price));
            }
            return Some((es[i].quantity, es[i].order_count));
        }
        i += 1;
    }
    None
}

/// Writes the levels of one side into the entries.
fn put_side(es: &mut Vec<LevelEntry>, side: BookSide, levels: &Vec<PriceLevel>)
    requires
        keys_unique(old(es)@),
    ensures
        keys_unique(final(es)@),
        entries_map(final(es)@) =~= put_levels(entries_map(old(es)@), side, levels@),
{
    let ghost start = entries_map(es@);
    let mut i: usize = 0;
    while i < levels.len()
        invariant
            i <= levels.len(),
            keys_unique(es@),
            entries_map(es@) =~= put_levels(start, side, levels@.take(i as int)),
        decreases levels.len() - i,
    {
        let l = levels[i];
        put_entry(es, LevelEntry { side, price: l.price, quantity: l.quantity, order_count: l.order_count });
        assert(levels@.take(i + 1).drop_last() =~= levels@.take(i as int));
        i += 1;
    }
    assert(levels@.take(levels.len() as int) =~= levels@);
}

/// The levels of a depth snapshot keyed by (side, price), bids then asks.
pub fn level_map(book: &OrderBookDepth) -> (r: Vec<LevelEntry>)
    ensures
        keys_unique(r@),
        entries_map(r@) =~= level_map_of(book@),
{
    let mut es: Vec<LevelEntry> = Vec::new();
    assert(entries_map(es@) =~= Map::empty());
    put_side(&mut es, BookSide::Bid, &book.bids);
    put_side(&mut es, BookSide::Ask, &book.asks);
    es
}

} // verus!
