//! One ingestion run of a region: what a run decides from what it read and
//! fetched, and how its failures are reported.
use std::collections::HashMap;
use std::collections::HashSet;
use vstd::prelude::*;

use crate::esi::EsiError;
use crate::history::{candidates_of, history_candidates, lemma_candidates_tradeable};
use crate::models::MarketRegionOrdersItem;
use crate::orders::{
    deactivated, expiry_fits, filter_tradeable, ids_of, lemma_stored_orders_tradeable, tradeable_orders,
    upsert_all, OrderTable,
};

verus! {

/// Why a region's run ended early, with the region.
#[derive(Clone, Copy, Debug, PartialEq, Eq, Structural)]
pub enum UpdateError {
    /// The history store failed.
    MarketHistorySql(usize),
    /// A market API request of the history run failed.
    MarketHistoryEsi(EsiError, usize),
    /// The system clock could not be read, so the history run has no cutoff.
    MarketHistoryClock(usize),
    /// The order store failed.
    UpdateOrderSql(usize),
    /// A market API request of the order run failed.
    UpdateOrderEsi(EsiError, usize),
}

/// Plans a history run of `region_id` from the upstream list of active type
/// ids: the items to fetch, or the run's abort when that list could not be
/// had.
pub fn history_plan(
    region_id: usize,
    region_types: Result<Vec<i32>, EsiError>,
    tradeable: &HashSet<u64>,
    cursors: &HashMap<u64, i64>,
    cutoff: i64,
) -> (r: Result<Vec<u64>, UpdateError>)
    ensures
        match region_types {
            Ok(types) => r is Ok && r.unwrap()@ == candidates_of(types@, tradeable@, cursors@, cutoff),
            Err(e) => r == Err::<Vec<u64>, UpdateError>(UpdateError::MarketHistoryEsi(e, region_id)),
        },
{
    match region_types {
        Ok(types) => Ok(history_candidates(&types, tradeable, cursors, cutoff)),
        Err(e) => Err(UpdateError::MarketHistoryEsi(e, region_id)),
    }
}

/// The orders that an order run of `region_id` stores: the fetched orders of
/// tradeable items, or the run's abort when the order book could not be had.
pub fn orders_to_store(
    region_id: usize,
    fetched: &Result<Vec<MarketRegionOrdersItem>, EsiError>,
    tradeable: &HashSet<u64>,
) -> (r: Result<Vec<MarketRegionOrdersItem>, UpdateError>)
    ensures
        match fetched {
            Ok(orders) => r is Ok && r.unwrap()@ == tradeable_orders(orders@, tradeable@),
            Err(e) => r == Err::<Vec<MarketRegionOrdersItem>, UpdateError>(
                UpdateError::UpdateOrderEsi(*e, region_id),
            ),
        },
{
    match fetched {
        Ok(orders) => Ok(filter_tradeable(orders, tradeable)),
        Err(e) => Err(UpdateError::UpdateOrderEsi(*e, region_id)),
    }
}

/// One order run of `region_id` against `table`: the fetched orders of
/// tradeable items are stored in batches, then the active orders of the
/// region's systems that the fetch did not list are closed. A failed fetch
/// aborts the run and leaves the table as it was.
pub fn update_order_for_region(
    region_id: usize,
    table: &mut OrderTable,
    tradeable: &HashSet<u64>,
    region_systems: &HashSet<u64>,
    fetched: Result<Vec<MarketRegionOrdersItem>, EsiError>,
) -> (r: Result<(), UpdateError>)
    requires
        old(table).wf(),
        fetched matches Ok(orders) ==> forall|i: int|
            0 <= i < orders@.len() ==> expiry_fits(#[trigger] orders@[i]),
    ensures
        final(table).wf(),
        match fetched {
            Ok(orders) => {
                let stored = tradeable_orders(orders@, tradeable@);
                &&& r is Ok
                &&& final(table)@ == deactivated(
                    upsert_all(old(table)@, stored, region_systems@),
                    region_systems@,
                    ids_of(stored),
                )
                &&& final(table)@.len() >= old(table)@.len()
                &&& forall|i: int|
                    0 <= i < old(table)@.len() && !region_systems@.contains(old(table)@[i].system_id)
                        ==> #[trigger] final(table)@[i] == old(table)@[i]
            },
            Err(e) => {
                &&& r == Err::<(), UpdateError>(UpdateError::UpdateOrderEsi(e, region_id))
                &&& final(table)@ == old(table)@
            },
        },
{
    let stored = match orders_to_store(region_id, &fetched, tradeable) {
        Ok(stored) => stored,
        Err(e) => return Err(e),
    };
    proof {
        let orders = fetched.unwrap()@;
        assert forall|i: int| 0 <= i < stored@.len() implies expiry_fits(#[trigger] stored@[i]) by {
            lemma_tradeable_orders_from(orders, tradeable@, i);
        }
    }
    table.insert_active_items(&stored, region_systems);
    Ok(())
}

/// The publish filter: an item outside the tradeable set is in neither
/// pipeline's candidates, whatever the upstream lists as active.
pub proof fn lemma_publish_filter(
    types: Seq<i32>,
    orders: Seq<MarketRegionOrdersItem>,
    tradeable: Set<u64>,
    cursors: Map<u64, i64>,
    cutoff: i64,
    item: u64,
)
    requires
        !tradeable.contains(item),
    ensures
        !candidates_of(types, tradeable, cursors, cutoff).contains(item),
        forall|i: int|
            0 <= i < tradeable_orders(orders, tradeable).len() ==> (#[trigger] tradeable_orders(
                orders,
                tradeable,
            )[i]).type_id != item,
{
    lemma_candidates_tradeable(types, tradeable, cursors, cutoff);
    lemma_stored_orders_tradeable(orders, tradeable);
}

proof fn lemma_tradeable_orders_from(orders: Seq<MarketRegionOrdersItem>, tradeable: Set<u64>, i: int)
    requires
        0 <= i < tradeable_orders(orders, tradeable).len(),
    ensures
        exists|j: int| 0 <= j < orders.len() && #[trigger] orders[j] == tradeable_orders(orders, tradeable)[i],
    decreases orders.len(),
{
    let prev = tradeable_orders(orders.drop_last(), tradeable);
    if i < prev.len() {
        lemma_tradeable_orders_from(orders.drop_last(), tradeable, i);
        let j = choose|j: int| 0 <= j < orders.drop_last().len() && #[trigger] orders.drop_last()[j] == prev[i];
        assert(orders[j] == orders.drop_last()[j]);
    } else {
        assert(orders[orders.len() - 1] == tradeable_orders(orders, tradeable)[i]);
    }
}

} // verus!
