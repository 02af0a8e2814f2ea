//! Listing a new market: the checks made before it is stored.
use vstd::prelude::*;
use crate::memory::{assets_view, find_asset_by_symbol};
use crate::types::{Asset, AssetModel};

verus! {

/// What a new market is listed with.
#[derive(Debug)]
pub struct InsertMarketParams {
    pub symbol: String,
    pub name: String,
    pub base_asset_symbol: String,
    pub quote_asset_symbol: String,
    pub price_tick_size: i64,
    pub quantity_step_size: i64,
    pub min_order_quantity: i64,
    pub min_order_notional: i64,
}

/// Why a market cannot be listed.
#[derive(Clone, Copy, PartialEq, Eq, Structural, Debug)]
pub enum ListingError {
    /// The base and the quote asset are the same.
    SameAssets,
    /// The base or the quote asset is unknown.
    AssetNotFound,
}

/// Where the first asset with exactly this symbol is kept.
pub open spec fn symbol_index(assets: Seq<AssetModel>, symbol: Seq<char>) -> Option<int> {
    crate::memory::first_index(assets, |a: AssetModel| a.symbol == symbol)
}

/// The base and quote asset ids a listing names: refused when both symbols
/// are the same or when either is not among `assets` (the first asset with
/// the symbol is taken).
pub open spec fn spec_listing_assets(input_base: Seq<char>, input_quote: Seq<char>, assets: Seq<AssetModel>) -> Result<(u128, u128), ListingError> {
    if input_base == input_quote {
        Err(ListingError::SameAssets)
    } else {
        match (symbol_index(assets, input_base), symbol_index(assets, input_quote)) {
            (Some(b), Some(q)) => Ok((assets[b].id, assets[q].id)),
            _ => Err(ListingError::AssetNotFound),
        }
    }
}

/// Checks that a listing names two different assets.
pub fn check_distinct_assets(input: &InsertMarketParams) -> (r: Result<(), ListingError>)
    ensures
        r is Err <==> input.base_asset_symbol@ == input.quote_asset_symbol@,
        r is Err ==> r == Err::<(), ListingError>(ListingError::SameAssets),
{
    if input.base_asset_symbol == input.quote_asset_symbol {
        Err(ListingError::SameAssets)
    } else {
        Ok(())
    }
}

/// The ids of a listing's base and quote assets among the assets fetched by
/// their symbols.
pub fn listing_assets(input: &InsertMarketParams, assets: &Vec<Asset>) -> (r: Result<(u128, u128), ListingError>)
    ensures
        r == spec_listing_assets(input.base_asset_symbol@, input.quote_asset_symbol@, assets_view(assets@)),
{
    check_distinct_assets(input)?;
    let b = find_asset_by_symbol(assets, &input.base_asset_symbol);
    let q = find_asset_by_symbol(assets, &input.quote_asset_symbol);
    match (b, q) {
        (Some(bi), Some(qi)) => {
            assert(assets_view(assets@)[bi as int] == assets@[bi as int]@);
            assert(assets_view(assets@)[qi as int] == assets@[qi as int]@);
            Ok((assets[bi].id, assets[qi].id))
        },
        _ => Err(ListingError::AssetNotFound),
    }
}

} // verus!
