//! The shapes of the market API's answers, as the library holds them.
use vstd::prelude::*;

use crate::esi::EsiError;

verus! {

/// An amount of ISK, carried as the IEEE-754 binary64 encoding of the
/// upstream value. The library never computes with prices; it stores them
/// exactly as they arrived.
#[derive(Clone, Copy, Debug, PartialEq, Eq, Structural)]
pub struct Price {
    pub bits: u64,
}

/// One day of an item's market history in a region.
#[derive(Clone, Copy, Debug, PartialEq, Eq, Structural)]
pub struct MarketRegionHistoryItem {
    pub average: Price,
    /// The UTC date, in days since 1970-01-01.
    pub date: i32,
    pub highest: Price,
    pub lowest: Price,
    pub order_count: i64,
    pub volume: i64,
}

/// One open order of a region's order book.
#[derive(Clone, Copy, Debug, PartialEq, Eq, Structural)]
pub struct MarketRegionOrdersItem {
    /// Days the order stays open after it was issued.
    pub duration: u32,
    pub is_buy_order: bool,
    /// Seconds since the epoch.
    pub issued: i64,
    pub location_id: u64,
    pub min_volume: u64,
    pub order_id: u64,
    pub price: Price,
    pub range: MarketRegionOrderRange,
    pub system_id: u64,
    pub type_id: u64,
    pub volume_remain: u64,
    pub volume_total: u64,
}

/// The decoded answer of the item lookup used for the publish check.
pub struct UniverseTypeId {
    pub name: String,
    pub published: bool,
}

impl UniverseTypeId {
    /// The outcome of the publish check of item `type_id`: an unpublished item
    /// is `NotPublished`, which the history pipeline skips.
    pub fn check_published(&self, type_id: u64) -> (r: Result<(), EsiError>)
        ensures
            self.published ==> r == Ok::<(), EsiError>(()),
            !self.published ==> r == Err::<(), EsiError>(EsiError::NotPublished(type_id)),
    {
        if self.published {
            Ok(())
        } else {
            Err(EsiError::NotPublished(type_id))
        }
    }
}

/// How far from its location an order reaches.
#[derive(Clone, Copy, Debug, PartialEq, Eq, Structural)]
pub enum MarketRegionOrderRange {
    Station,
    Region,
    SolarSystem,
    R1,
    R2,
    R3,
    R4,
    R5,
    R10,
    R20,
    R30,
    R40,
}

} // verus!
