//! The history pipeline's decisions: which items to fetch, and which fetched
//! rows are new.
use std::collections::HashMap;
use std::collections::HashSet;
use vstd::prelude::*;

use crate::clock::{start_of_date, start_of_day};
use crate::esi::EsiError;
use crate::models::MarketRegionHistoryItem;

verus! {

broadcast use vstd::std_specs::hash::group_hash_axioms;

/// Items fetched concurrently in one chunk of a history run.
pub const HISTORY_CHUNK_SIZE: usize = 300;

/// A stored history row: one day of one item in one region.
#[derive(Clone, Copy, Debug, PartialEq, Eq, Structural)]
pub struct HistoryRecord {
    pub item_id: u64,
    pub region_id: usize,
    pub entry: MarketRegionHistoryItem,
}

/// What the fetch of one item's history gave.
pub type ItemHistory = (u64, Result<Vec<MarketRegionHistoryItem>, EsiError>);

/// The cursor of `item` in a cursor map, if it has one.
pub open spec fn cursor_in(cursors: Map<u64, i64>, item: u64) -> Option<i64> {
    if cursors.contains_key(item) {
        Some(cursors[item])
    } else {
        None
    }
}

/// An upstream type id that the history run fetches: a tradeable item whose
/// cursor is absent or older than the cutoff.
pub open spec fn is_candidate(
    type_id: i32,
    tradeable: Set<u64>,
    cursors: Map<u64, i64>,
    cutoff: i64,
) -> bool {
    type_id >= 0 && tradeable.contains(type_id as u64) && match cursor_in(
        cursors,
        type_id as u64,
    ) {
        Some(c) => c < cutoff,
        None => true,
    }
}

/// The candidates among the upstream type ids, in upstream order.
pub open spec fn candidates_of(
    types: Seq<i32>,
    tradeable: Set<u64>,
    cursors: Map<u64, i64>,
    cutoff: i64,
) -> Seq<u64>
    decreases types.len(),
{
    if types.len() == 0 {
        Seq::empty()
    } else {
        let prev = candidates_of(types.drop_last(), tradeable, cursors, cutoff);
        if is_candidate(types.last(), tradeable, cursors, cutoff) {
            prev.push(types.last() as u64)
        } else {
            prev
        }
    }
}

/// The items to fetch history for: the upstream active ids that are
/// tradeable and whose cursor is absent or older than `cutoff`.
pub fn history_candidates(
    region_types: &Vec<i32>,
    tradeable: &HashSet<u64>,
    cursors: &HashMap<u64, i64>,
    cutoff: i64,
) -> (r: Vec<u64>)
    ensures
        r@ == candidates_of(region_types@, tradeable@, cursors@, cutoff),
{
    let mut out: Vec<u64> = Vec::new();
    let mut i: usize = 0;
    while i < region_types.len()
        invariant
            i <= region_types@.len(),
            out@ == candidates_of(region_types@.take(i as int), tradeable@, cursors@, cutoff),
        decreases region_types@.len() - i,
    {
        let t = region_types[i];
        assert(region_types@.take(i + 1).drop_last() =~= region_types@.take(i as int));
        if t >= 0 {
            let id = t as u64;
            if tradeable.contains(&id) {
                let fresh = match cursors.get(&id) {
                    Some(c) => *c < cutoff,
                    None => true,
                };
                if fresh {
                    out.push(id);
                }
            }
        }
        i = i + 1;
    }
    assert(region_types@.take(region_types@.len() as int) =~= region_types@);
    out
}

/// Whether a fetched day is newer than the item's cursor (always, when the
/// item has none).
pub open spec fn is_fresh(entry: MarketRegionHistoryItem, cursor: Option<i64>) -> bool {
    match cursor {
        Some(c) => start_of_day(entry.date as int) > c,
        None => true,
    }
}

/// The records for the fetched days of `item` that are newer than its cursor,
/// in fetched order.
pub open spec fn fresh_of(
    item: u64,
    region: usize,
    entries: Seq<MarketRegionHistoryItem>,
    cursor: Option<i64>,
) -> Seq<HistoryRecord>
    decreases entries.len(),
{
    if entries.len() == 0 {
        Seq::empty()
    } else {
        let prev = fresh_of(item, region, entries.drop_last(), cursor);
        if is_fresh(entries.last(), cursor) {
            prev.push(HistoryRecord { item_id: item, region_id: region, entry: entries.last() })
        } else {
            prev
        }
    }
}

/// Keeps the fetched days of `item` that are strictly newer than its cursor.
pub fn fresh_records(
    item: u64,
    region_id: usize,
    entries: &Vec<MarketRegionHistoryItem>,
    cursor: Option<i64>,
) -> (r: Vec<HistoryRecord>)
    ensures
        r@ == fresh_of(item, region_id, entries@, cursor),
{
    let mut out: Vec<HistoryRecord> = Vec::new();
    let mut i: usize = 0;
    while i < entries.len()
        invariant
            i <= entries@.len(),
            out@ == fresh_of(item, region_id, entries@.take(i as int), cursor),
        decreases entries@.len() - i,
    {
        let e = entries[i];
        assert(entries@.take(i + 1).drop_last() =~= entries@.take(i as int));
        let keep = match cursor {
            Some(c) => start_of_date(e.date) > c,
            None => true,
        };
        if keep {
            out.push(HistoryRecord { item_id: item, region_id, entry: e });
        }
        i = i + 1;
    }
    assert(entries@.take(entries@.len() as int) =~= entries@);
    out
}

/// The error that fails a chunk: the first fetch error other than
/// `NotPublished` (an unpublished item is skipped, not an error).
pub open spec fn chunk_failure(outcomes: Seq<ItemHistory>) -> Option<EsiError>
    decreases outcomes.len(),
{
    if outcomes.len() == 0 {
        None
    } else {
        match chunk_failure(outcomes.drop_last()) {
            Some(e) => Some(e),
            None => match outcomes.last().1 {
                Err(EsiError::NotPublished(_)) => None,
                Err(e) => Some(e),
                Ok(_) => None,
            },
        }
    }
}

/// The new records of a chunk's fetched items, item after item.
pub open spec fn chunk_rows(
    region: usize,
    outcomes: Seq<ItemHistory>,
    cursors: Map<u64, i64>,
) -> Seq<HistoryRecord>
    decreases outcomes.len(),
{
    if outcomes.len() == 0 {
        Seq::empty()
    } else {
        let item = outcomes.last().0;
        chunk_rows(region, outcomes.drop_last(), cursors) + match outcomes.last().1 {
            Ok(v) => fresh_of(item, region, v@, cursor_in(cursors, item)),
            Err(_) => Seq::empty(),
        }
    }
}

/// What a chunk contributes: its new records, or the error that failed it.
pub open spec fn chunk_outcome(
    region: usize,
    outcomes: Seq<ItemHistory>,
    cursors: Map<u64, i64>,
) -> Result<Seq<HistoryRecord>, EsiError> {
    match chunk_failure(outcomes) {
        Some(e) => Err(e),
        None => Ok(chunk_rows(region, outcomes, cursors)),
    }
}

/// Turns the fetch outcomes of one chunk into the records to insert. A chunk
/// with any failed fetch (but `NotPublished`) yields its first such error and
/// no records; otherwise every fetched day newer than its item's cursor.
pub fn chunk_records(
    region_id: usize,
    outcomes: &Vec<ItemHistory>,
    cursors: &HashMap<u64, i64>,
) -> (r: Result<Vec<HistoryRecord>, EsiError>)
    ensures
        match chunk_outcome(region_id, outcomes@, cursors@) {
            Ok(rows) => r is Ok && r.unwrap()@ == rows,
            Err(e) => r == Err::<Vec<HistoryRecord>, EsiError>(e),
        },
{
    let mut out: Vec<HistoryRecord> = Vec::new();
    let mut i: usize = 0;
    while i < outcomes.len()
        invariant
            i <= outcomes@.len(),
            chunk_failure(outcomes@.take(i as int)) is None,
            out@ == chunk_rows(region_id, outcomes@.take(i as int), cursors@),
        decreases outcomes@.len() - i,
    {
        let (item, outcome) = &outcomes[i];
        assert(outcomes@.take(i + 1).drop_last() =~= outcomes@.take(i as int));
        assert(outcomes@.take(i + 1).last() == outcomes@[i as int]);
        match outcome {
            Ok(entries) => {
                let cursor = match cursors.get(item) {
                    Some(c) => Some(*c),
                    None => None,
                };
                let mut fresh = fresh_records(*item, region_id, entries, cursor);
                out.append(&mut fresh);
            },
            Err(EsiError::NotPublished(_)) => {},
            Err(e) => {
                proof {
                    lemma_chunk_failure_prefix(outcomes@, i + 1);
                }
                return Err(*e);
            },
        }
        i = i + 1;
    }
    assert(outcomes@.take(outcomes@.len() as int) =~= outcomes@);
    Ok(out)
}

proof fn lemma_chunk_failure_some(outcomes: Seq<ItemHistory>, j: int)
    requires
        0 <= j < outcomes.len(),
        outcomes[j].1 is Err,
        !(outcomes[j].1 matches Err(EsiError::NotPublished(_))),
    ensures
        chunk_failure(outcomes) is Some,
    decreases outcomes.len(),
{
    if j < outcomes.len() - 1 {
        lemma_chunk_failure_some(outcomes.drop_last(), j);
    }
}

/// A failed fetch, such as a rate-limited one, fails its whole chunk: the
/// chunk yields an error and none of its rows, never a partial success.
pub proof fn lemma_failed_fetch_fails_chunk(
    region: usize,
    outcomes: Seq<ItemHistory>,
    cursors: Map<u64, i64>,
    j: int,
)
    requires
        0 <= j < outcomes.len(),
        outcomes[j].1 is Err,
        !(outcomes[j].1 matches Err(EsiError::NotPublished(_))),
    ensures
        chunk_outcome(region, outcomes, cursors) is Err,
{
    lemma_chunk_failure_some(outcomes, j);
}

/// Every candidate of a history run is a tradeable item.
pub proof fn lemma_candidates_tradeable(
    types: Seq<i32>,
    tradeable: Set<u64>,
    cursors: Map<u64, i64>,
    cutoff: i64,
)
    ensures
        forall|i: int|
            0 <= i < candidates_of(types, tradeable, cursors, cutoff).len() ==> tradeable.contains(
                #[trigger] candidates_of(types, tradeable, cursors, cutoff)[i],
            ),
    decreases types.len(),
{
    if types.len() > 0 {
        lemma_candidates_tradeable(types.drop_last(), tradeable, cursors, cutoff);
        let prev = candidates_of(types.drop_last(), tradeable, cursors, cutoff);
        let all = candidates_of(types, tradeable, cursors, cutoff);
        assert forall|i: int| 0 <= i < all.len() implies tradeable.contains(#[trigger] all[i]) by {
            if i < prev.len() {
                assert(all[i] == prev[i]);
            }
        }
    }
}

proof fn lemma_chunk_failure_prefix(outcomes: Seq<ItemHistory>, n: int)
    requires
        0 <= n <= outcomes.len(),
        chunk_failure(outcomes.take(n)) is Some,
    ensures
        chunk_failure(outcomes) == chunk_failure(outcomes.take(n)),
    decreases outcomes.len() - n,
{
    if n < outcomes.len() {
        assert(outcomes.take(n + 1).drop_last() =~= outcomes.take(n));
        lemma_chunk_failure_prefix(outcomes, n + 1);
    } else {
        assert(outcomes.take(n) =~= outcomes);
    }
}

} // verus!
