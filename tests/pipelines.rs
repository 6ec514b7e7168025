use std::collections::{HashMap, HashSet};

use noice::clock::cursor_of_date;
use noice::esi::EsiError;
use noice::history::{
    chunk_records, fresh_records, history_candidates, HistoryRecord, ItemHistory,
};
use noice::history_table::HistoryTable;
use noice::models::{MarketRegionHistoryItem, MarketRegionOrderRange, MarketRegionOrdersItem, Price};
use noice::orders::{filter_tradeable, order_ids, order_row, OrderTable};
use noice::update::{history_plan, orders_to_store, update_order_for_region, UpdateError};

const REGION: usize = 10000002;

fn day(date: i32, average: f64) -> MarketRegionHistoryItem {
    MarketRegionHistoryItem {
        average: Price { bits: average.to_bits() },
        date,
        highest: Price { bits: (average + 1.0).to_bits() },
        lowest: Price { bits: (average - 1.0).to_bits() },
        order_count: 10,
        volume: 100,
    }
}

fn order(order_id: u64, type_id: u64, system_id: u64) -> MarketRegionOrdersItem {
    MarketRegionOrdersItem {
        duration: 90,
        is_buy_order: false,
        issued: 1_700_000_000,
        location_id: 60003760,
        min_volume: 1,
        order_id,
        price: Price { bits: 5.5f64.to_bits() },
        range: MarketRegionOrderRange::Region,
        system_id,
        type_id,
        volume_remain: 10,
        volume_total: 20,
    }
}

fn set(ids: &[u64]) -> HashSet<u64> {
    ids.iter().copied().collect()
}

#[test]
fn candidates_are_tradeable_and_behind_the_cutoff() {
    let tradeable = set(&[34, 35, 36, 37]);
    let cutoff = cursor_of_date(100);
    let mut cursors = HashMap::new();
    cursors.insert(35u64, cursor_of_date(100));
    cursors.insert(36u64, cursor_of_date(99));
    let types = vec![34, 35, 36, 99, -4, 37];
    assert_eq!(history_candidates(&types, &tradeable, &cursors, cutoff), vec![34, 36, 37]);
}

#[test]
fn an_untradeable_item_is_never_a_candidate() {
    let tradeable = set(&[34]);
    let types = vec![34, 587];
    let plan = history_plan(REGION, Ok(types), &tradeable, &HashMap::new(), 0);
    assert_eq!(plan, Ok(vec![34]));
    let orders = vec![order(1, 34, 30000142), order(2, 587, 30000142)];
    let kept = filter_tradeable(&orders, &tradeable);
    assert_eq!(kept, vec![order(1, 34, 30000142)]);
}

#[test]
fn a_failed_type_list_aborts_the_history_run() {
    let plan = history_plan(REGION, Err(EsiError::RateLimited), &set(&[34]), &HashMap::new(), 0);
    assert_eq!(plan, Err(UpdateError::MarketHistoryEsi(EsiError::RateLimited, REGION)));
}

#[test]
fn only_days_after_the_cursor_are_kept() {
    let entries = vec![day(98, 1.0), day(99, 2.0), day(100, 3.0), day(101, 4.0)];
    let kept = fresh_records(34, REGION, &entries, Some(cursor_of_date(99)));
    assert_eq!(
        kept,
        vec![
            HistoryRecord { item_id: 34, region_id: REGION, entry: day(100, 3.0) },
            HistoryRecord { item_id: 34, region_id: REGION, entry: day(101, 4.0) },
        ]
    );
    assert_eq!(fresh_records(34, REGION, &entries, None).len(), 4);
}

#[test]
fn an_unpublished_item_is_skipped() {
    let outcomes: Vec<ItemHistory> = vec![
        (34, Ok(vec![day(100, 3.0)])),
        (35, Err(EsiError::NotPublished(35))),
        (36, Ok(vec![day(100, 4.0)])),
    ];
    let rows = chunk_records(REGION, &outcomes, &HashMap::new()).unwrap();
    assert_eq!(rows.len(), 2);
    assert_eq!(rows[0].item_id, 34);
    assert_eq!(rows[1].item_id, 36);
}

#[test]
fn a_rate_limited_item_fails_its_chunk() {
    let outcomes: Vec<ItemHistory> = vec![
        (34, Ok(vec![day(100, 3.0)])),
        (35, Err(EsiError::RateLimited)),
        (36, Err(EsiError::ConnectionError)),
    ];
    assert_eq!(chunk_records(REGION, &outcomes, &HashMap::new()), Err(EsiError::RateLimited));
}

#[test]
fn history_cursor_is_the_latest_stored_day() {
    let mut table = HistoryTable::new();
    table.insert_items(vec![
        HistoryRecord { item_id: 34, region_id: REGION, entry: day(100, 1.0) },
        HistoryRecord { item_id: 34, region_id: REGION, entry: day(102, 1.0) },
        HistoryRecord { item_id: 34, region_id: REGION, entry: day(101, 1.0) },
        HistoryRecord { item_id: 35, region_id: 10000043, entry: day(105, 1.0) },
    ]);
    let cursors = table.latest_histories(REGION);
    assert_eq!(cursors.len(), 1);
    assert_eq!(cursors.get(&34), Some(&cursor_of_date(102)));
}

#[test]
fn one_row_per_item_region_and_day() {
    let mut table = HistoryTable::new();
    let first = HistoryRecord { item_id: 34, region_id: REGION, entry: day(100, 1.0) };
    let second = HistoryRecord { item_id: 34, region_id: REGION, entry: day(100, 9.0) };
    let other_region = HistoryRecord { item_id: 34, region_id: 10000043, entry: day(100, 9.0) };
    table.insert_items(vec![first, second, other_region]);
    assert_eq!(table.len(), 2);
    assert_eq!(table.rows()[0], first);
    table.insert_items(vec![second]);
    assert_eq!(table.len(), 2);
    assert_eq!(table.rows()[0], first);
}

#[test]
fn a_second_history_run_inserts_nothing() {
    let mut table = HistoryTable::new();
    table.insert_items(vec![HistoryRecord { item_id: 34, region_id: REGION, entry: day(99, 1.0) }]);
    let upstream: Vec<ItemHistory> = vec![
        (34, Ok(vec![day(98, 1.0), day(99, 1.0), day(100, 2.0), day(101, 3.0)])),
        (35, Ok(vec![day(101, 5.0)])),
    ];
    let cursors = table.latest_histories(REGION);
    let rows = chunk_records(REGION, &upstream, &cursors).unwrap();
    assert_eq!(rows.len(), 3);
    table.insert_items(rows);
    assert_eq!(table.len(), 4);

    let cursors = table.latest_histories(REGION);
    let rows = chunk_records(REGION, &upstream, &cursors).unwrap();
    assert!(rows.is_empty());
    table.insert_items(rows);
    assert_eq!(table.len(), 4);
}

#[test]
fn an_order_row_expires_after_its_duration() {
    let row = order_row(&order(7, 34, 30000142));
    assert_eq!(row.expiry, 1_700_000_000 + 90 * 86400);
    assert!(row.active);
    assert_eq!(row.order_id, 7);
    assert_eq!(row.item_id, 34);
}

#[test]
fn order_ids_of_a_fetch() {
    let ids = order_ids(&vec![order(1, 34, 1), order(2, 34, 1), order(1, 35, 1)]);
    assert_eq!(ids, set(&[1, 2]));
}

#[test]
fn an_order_missing_from_the_fetch_is_closed() {
    let jita = 30000142;
    let amarr = 30002187;
    let tradeable = set(&[34]);
    let forge = set(&[jita]);
    let mut table = OrderTable::new();
    let first = vec![order(1, 34, jita), order(2, 34, jita), order(3, 34, jita), order(9, 34, amarr)];
    update_order_for_region(REGION, &mut table, &tradeable, &forge, Ok(first)).unwrap();
    assert!(table.rows().iter().all(|r| r.active));

    let mut changed = order(1, 34, jita);
    changed.price = Price { bits: 7.0f64.to_bits() };
    let second = vec![changed, order(3, 34, jita)];
    update_order_for_region(REGION, &mut table, &tradeable, &forge, Ok(second)).unwrap();
    let rows = table.rows();
    assert_eq!(rows.len(), 4);
    let by_id = |id: u64| rows.iter().find(|r| r.order_id == id).unwrap();
    assert!(by_id(1).active);
    assert_eq!(by_id(1).price, Price { bits: 5.5f64.to_bits() });
    assert!(!by_id(2).active);
    assert!(by_id(3).active);
    assert!(by_id(9).active);
}

#[test]
fn a_failed_order_fetch_leaves_the_table() {
    let mut table = OrderTable::new();
    let tradeable = set(&[34]);
    let forge = set(&[30000142]);
    update_order_for_region(REGION, &mut table, &tradeable, &forge, Ok(vec![order(1, 34, 30000142)]))
        .unwrap();
    let r = update_order_for_region(REGION, &mut table, &tradeable, &forge, Err(EsiError::RateLimited));
    assert_eq!(r, Err(UpdateError::UpdateOrderEsi(EsiError::RateLimited, REGION)));
    assert_eq!(table.rows().len(), 1);
    assert!(table.rows()[0].active);
}

#[test]
fn untradeable_orders_are_not_stored() {
    let mut table = OrderTable::new();
    let tradeable = set(&[34]);
    let forge = set(&[30000142]);
    let fetched = vec![order(1, 34, 30000142), order(2, 99, 30000142)];
    update_order_for_region(REGION, &mut table, &tradeable, &forge, Ok(fetched)).unwrap();
    assert_eq!(table.rows().len(), 1);
    assert_eq!(table.rows()[0].order_id, 1);
    let stored = orders_to_store(REGION, &Err(EsiError::ErrorResponse), &tradeable);
    assert_eq!(stored, Err(UpdateError::UpdateOrderEsi(EsiError::ErrorResponse, REGION)));
}

#[test]
fn batches_cover_a_large_order_book() {
    let mut table = OrderTable::new();
    let tradeable = set(&[34]);
    let forge = set(&[30000142]);
    let fetched: Vec<MarketRegionOrdersItem> = (0..2500).map(|i| order(i, 34, 30000142)).collect();
    update_order_for_region(REGION, &mut table, &tradeable, &forge, Ok(fetched)).unwrap();
    assert_eq!(table.rows().len(), 2500);
    assert!(table.rows().iter().all(|r| r.active));
}

#[test]
fn a_history_run_stored_twice_changes_nothing_the_second_time() {
    let mut table = HistoryTable::new();
    table.insert_items(vec![HistoryRecord { item_id: 34, region_id: REGION, entry: day(99, 1.0) }]);
    let chunks: Vec<Vec<ItemHistory>> = vec![
        vec![
            (34, Ok(vec![day(99, 7.0), day(100, 2.0)])),
            (35, Err(EsiError::NotPublished(35))),
        ],
        vec![(36, Ok(vec![day(100, 3.0)])), (37, Err(EsiError::RateLimited))],
        vec![(38, Ok(vec![day(98, 4.0), day(99, 5.0)]))],
    ];
    table.store_history_run(REGION, &chunks);
    assert_eq!(table.len(), 4);
    assert_eq!(table.rows()[0].entry, day(99, 1.0));
    assert!(table.rows().iter().all(|r| r.item_id != 36));
    let before: Vec<HistoryRecord> = table.rows().clone();
    table.store_history_run(REGION, &chunks);
    assert_eq!(table.rows(), &before);
}

#[test]
fn a_closed_order_listed_again_is_active_again() {
    let jita = 30000142;
    let tradeable = set(&[34]);
    let forge = set(&[jita]);
    let mut table = OrderTable::new();
    update_order_for_region(REGION, &mut table, &tradeable, &forge, Ok(vec![order(1, 34, jita), order(2, 34, jita)]))
        .unwrap();
    update_order_for_region(REGION, &mut table, &tradeable, &forge, Ok(vec![order(1, 34, jita)])).unwrap();
    assert!(!table.rows()[1].active);

    let mut again = order(2, 34, jita);
    again.price = Price { bits: 9.0f64.to_bits() };
    update_order_for_region(REGION, &mut table, &tradeable, &forge, Ok(vec![order(1, 34, jita), again]))
        .unwrap();
    let rows = table.rows();
    assert_eq!(rows.len(), 2);
    assert!(rows[0].active);
    assert!(rows[1].active);
    assert_eq!(rows[1].price, Price { bits: 5.5f64.to_bits() });
    assert_eq!(rows[1].order_id, 2);
}

#[test]
fn an_order_outside_the_region_systems_is_never_touched() {
    let jita = 30000142;
    let amarr = 30002187;
    let tradeable = set(&[34]);
    let mut table = OrderTable::new();
    update_order_for_region(10000043, &mut table, &tradeable, &set(&[amarr]), Ok(vec![order(5, 34, amarr)]))
        .unwrap();
    update_order_for_region(10000043, &mut table, &tradeable, &set(&[amarr]), Ok(vec![])).unwrap();
    assert!(!table.rows()[0].active);
    update_order_for_region(REGION, &mut table, &tradeable, &set(&[jita]), Ok(vec![order(5, 34, amarr)]))
        .unwrap();
    assert_eq!(table.rows().len(), 1);
    assert!(!table.rows()[0].active);
}
