//! An in-memory model of the SQL history table, with the same rules: at most
//! one row per (item, region, date), written by insert-or-ignore, read
//! through the latest-history cursor.
use std::collections::HashMap;
use vstd::prelude::*;

use crate::clock::{cursor_of_date, lemma_newer_than_cursor, publish_instant};
use crate::history::{
    chunk_failure, chunk_outcome, chunk_records, chunk_rows, cursor_in, fresh_of, is_fresh, HistoryRecord,
    ItemHistory,
};

verus! {

broadcast use vstd::std_specs::hash::group_hash_axioms;

/// The natural key of a history row.
pub open spec fn key_of(r: HistoryRecord) -> (u64, usize, i32) {
    (r.item_id, r.region_id, r.entry.date)
}

/// Some row of `rows` has key `k`.
pub open spec fn has_key(rows: Seq<HistoryRecord>, k: (u64, usize, i32)) -> bool {
    exists|i: int| 0 <= i < rows.len() && key_of(#[trigger] rows[i]) == k
}

/// No two rows share a key.
pub open spec fn keys_unique(rows: Seq<HistoryRecord>) -> bool {
    forall|i: int, j: int|
        0 <= i < rows.len() && 0 <= j < rows.len() && i != j ==> key_of(#[trigger] rows[i])
            != key_of(#[trigger] rows[j])
}

/// The rows after inserting `records` one after another, each ignored when a
/// row with its key is already there.
pub open spec fn insert_all(rows: Seq<HistoryRecord>, records: Seq<HistoryRecord>) -> Seq<
    HistoryRecord,
>
    decreases records.len(),
{
    if records.len() == 0 {
        rows
    } else {
        let acc = insert_all(rows, records.drop_last());
        if has_key(acc, key_of(records.last())) {
            acc
        } else {
            acc.push(records.last())
        }
    }
}

/// The latest stored date of `item` in `region`, if any row holds one.
pub open spec fn latest_date(rows: Seq<HistoryRecord>, region: usize, item: u64) -> Option<i32>
    decreases rows.len(),
{
    if rows.len() == 0 {
        None
    } else {
        let prev = latest_date(rows.drop_last(), region, item);
        let r = rows.last();
        if r.region_id == region && r.item_id == item {
            match prev {
                Some(d) => if d >= r.entry.date {
                    Some(d)
                } else {
                    Some(r.entry.date)
                },
                None => Some(r.entry.date),
            }
        } else {
            prev
        }
    }
}

/// The latest-history cursor of each item that has rows in `region`: its
/// latest stored date at the publication hour.
pub open spec fn cursors_of(rows: Seq<HistoryRecord>, region: usize) -> Map<u64, i64> {
    Map::new(
        |item: u64| latest_date(rows, region, item) is Some,
        |item: u64| publish_instant(latest_date(rows, region, item).unwrap() as int) as i64,
    )
}

/// The rows that a history run inserts: the records of each chunk that did
/// not fail, chunk after chunk, all filtered against the cursors read at the
/// start of the run.
pub open spec fn run_rows(
    region: usize,
    chunks: Seq<Seq<ItemHistory>>,
    cursors: Map<u64, i64>,
) -> Seq<HistoryRecord>
    decreases chunks.len(),
{
    if chunks.len() == 0 {
        Seq::empty()
    } else {
        run_rows(region, chunks.drop_last(), cursors) + match chunk_outcome(
            region,
            chunks.last(),
            cursors,
        ) {
            Ok(rows) => rows,
            Err(_) => Seq::empty(),
        }
    }
}

proof fn lemma_latest_date_bound(rows: Seq<HistoryRecord>, region: usize, item: u64, i: int)
    requires
        0 <= i < rows.len(),
        rows[i].region_id == region,
        rows[i].item_id == item,
    ensures
        latest_date(rows, region, item) is Some,
        latest_date(rows, region, item).unwrap() >= rows[i].entry.date,
    decreases rows.len(),
{
    if i < rows.len() - 1 {
        lemma_latest_date_bound(rows.drop_last(), region, item, i);
    }
}

proof fn lemma_latest_date_witness(rows: Seq<HistoryRecord>, region: usize, item: u64) -> (i: int)
    requires
        latest_date(rows, region, item) is Some,
    ensures
        0 <= i < rows.len(),
        rows[i].region_id == region,
        rows[i].item_id == item,
        rows[i].entry.date == latest_date(rows, region, item).unwrap(),
    decreases rows.len(),
{
    let prev = latest_date(rows.drop_last(), region, item);
    let r = rows.last();
    if r.region_id == region && r.item_id == item && (prev is None || prev.unwrap() < r.entry.date) {
        rows.len() - 1
    } else {
        lemma_latest_date_witness(rows.drop_last(), region, item)
    }
}

proof fn lemma_insert_all_prefix(rows: Seq<HistoryRecord>, records: Seq<HistoryRecord>)
    ensures
        insert_all(rows, records).len() >= rows.len(),
        forall|i: int| 0 <= i < rows.len() ==> #[trigger] insert_all(rows, records)[i] == rows[i],
    decreases records.len(),
{
    if records.len() > 0 {
        lemma_insert_all_prefix(rows, records.drop_last());
    }
}

proof fn lemma_insert_all_has_key(rows: Seq<HistoryRecord>, records: Seq<HistoryRecord>, j: int)
    requires
        0 <= j < records.len(),
    ensures
        has_key(insert_all(rows, records), key_of(records[j])),
    decreases records.len(),
{
    let acc = insert_all(rows, records.drop_last());
    if j < records.len() - 1 {
        lemma_insert_all_has_key(rows, records.drop_last(), j);
        let k = choose|k: int| 0 <= k < acc.len() && key_of(#[trigger] acc[k]) == key_of(records[j]);
        lemma_insert_all_prefix(acc, seq![records.last()]);
        if !has_key(acc, key_of(records.last())) {
            assert(insert_all(rows, records)[k] == acc[k]);
        }
    } else if !has_key(acc, key_of(records.last())) {
        assert(insert_all(rows, records)[acc.len() as int] == records.last());
    }
}

proof fn lemma_contains_append<A>(a: Seq<A>, b: Seq<A>, x: A)
    requires
        a.contains(x) || b.contains(x),
    ensures
        (a + b).contains(x),
{
    if a.contains(x) {
        let i = choose|i: int| 0 <= i < a.len() && a[i] == x;
        assert((a + b)[i] == x);
    } else {
        let i = choose|i: int| 0 <= i < b.len() && b[i] == x;
        assert((a + b)[a.len() + i] == x);
    }
}

proof fn lemma_fresh_transfer(
    item: u64,
    region: usize,
    entries: Seq<crate::models::MarketRegionHistoryItem>,
    before: Option<i64>,
    after: Option<i64>,
    n: int,
)
    requires
        0 <= n < fresh_of(item, region, entries, after).len(),
    ensures
        ({
            let rec = fresh_of(item, region, entries, after)[n];
            &&& rec.item_id == item
            &&& rec.region_id == region
            &&& is_fresh(rec.entry, after)
            &&& (fresh_of(item, region, entries, before).contains(rec) || !is_fresh(
                rec.entry,
                before,
            ))
        }),
    decreases entries.len(),
{
    let prev_after = fresh_of(item, region, entries.drop_last(), after);
    let prev_before = fresh_of(item, region, entries.drop_last(), before);
    let rec = fresh_of(item, region, entries, after)[n];
    if n < prev_after.len() {
        lemma_fresh_transfer(item, region, entries.drop_last(), before, after, n);
        assert(rec == prev_after[n]);
        if prev_before.contains(rec) {
            let i = choose|i: int| 0 <= i < prev_before.len() && prev_before[i] == rec;
            assert(fresh_of(item, region, entries, before)[i] == rec);
        }
    } else {
        if is_fresh(rec.entry, before) {
            let whole = fresh_of(item, region, entries, before);
            assert(whole[prev_before.len() as int] == rec);
        }
    }
}

proof fn lemma_chunk_transfer(
    region: usize,
    outcomes: Seq<ItemHistory>,
    before: Map<u64, i64>,
    after: Map<u64, i64>,
    n: int,
)
    requires
        0 <= n < chunk_rows(region, outcomes, after).len(),
    ensures
        ({
            let rec = chunk_rows(region, outcomes, after)[n];
            &&& rec.region_id == region
            &&& is_fresh(rec.entry, cursor_in(after, rec.item_id))
            &&& (chunk_rows(region, outcomes, before).contains(rec) || !is_fresh(
                rec.entry,
                cursor_in(before, rec.item_id),
            ))
        }),
    decreases outcomes.len(),
{
    let item = outcomes.last().0;
    let a_after = chunk_rows(region, outcomes.drop_last(), after);
    let a_before = chunk_rows(region, outcomes.drop_last(), before);
    let rec = chunk_rows(region, outcomes, after)[n];
    let b_before = match outcomes.last().1 {
        Ok(v) => fresh_of(item, region, v@, cursor_in(before, item)),
        Err(_) => Seq::empty(),
    };
    if n < a_after.len() {
        lemma_chunk_transfer(region, outcomes.drop_last(), before, after, n);
        assert(rec == a_after[n]);
        if a_before.contains(rec) {
            lemma_contains_append(a_before, b_before, rec);
        }
    } else {
        match outcomes.last().1 {
            Ok(v) => {
                lemma_fresh_transfer(
                    item,
                    region,
                    v@,
                    cursor_in(before, item),
                    cursor_in(after, item),
                    n - a_after.len(),
                );
                if b_before.contains(rec) {
                    lemma_contains_append(a_before, b_before, rec);
                }
            },
            Err(_) => {},
        }
    }
}

proof fn lemma_run_transfer(
    region: usize,
    chunks: Seq<Seq<ItemHistory>>,
    before: Map<u64, i64>,
    after: Map<u64, i64>,
    n: int,
)
    requires
        0 <= n < run_rows(region, chunks, after).len(),
    ensures
        ({
            let rec = run_rows(region, chunks, after)[n];
            &&& rec.region_id == region
            &&& is_fresh(rec.entry, cursor_in(after, rec.item_id))
            &&& (run_rows(region, chunks, before).contains(rec) || !is_fresh(
                rec.entry,
                cursor_in(before, rec.item_id),
            ))
        }),
    decreases chunks.len(),
{
    let a_after = run_rows(region, chunks.drop_last(), after);
    let a_before = run_rows(region, chunks.drop_last(), before);
    let rec = run_rows(region, chunks, after)[n];
    let b_before = match chunk_outcome(region, chunks.last(), before) {
        Ok(rows) => rows,
        Err(_) => Seq::empty(),
    };
    if n < a_after.len() {
        lemma_run_transfer(region, chunks.drop_last(), before, after, n);
        assert(rec == a_after[n]);
        if a_before.contains(rec) {
            lemma_contains_append(a_before, b_before, rec);
        }
    } else {
        if chunk_failure(chunks.last()) is None {
            lemma_chunk_transfer(region, chunks.last(), before, after, n - a_after.len());
            if b_before.contains(rec) {
                lemma_contains_append(a_before, b_before, rec);
            }
        }
    }
}

/// Idempotence of the history pipeline: once a run's new rows are stored, a
/// second run over the same upstream answers, with the cursors read afresh,
/// finds no new row, and storing what it found leaves the table as it was.
pub proof fn lemma_history_rerun_inserts_nothing(
    rows: Seq<HistoryRecord>,
    region: usize,
    chunks: Seq<Seq<ItemHistory>>,
)
    ensures
        ({
            let first = insert_all(rows, run_rows(region, chunks, cursors_of(rows, region)));
            &&& run_rows(region, chunks, cursors_of(first, region)) == Seq::<HistoryRecord>::empty()
            &&& insert_all(first, run_rows(region, chunks, cursors_of(first, region))) == first
        }),
{
    let c0 = cursors_of(rows, region);
    let r0 = run_rows(region, chunks, c0);
    let first = insert_all(rows, r0);
    let c1 = cursors_of(first, region);
    let r1 = run_rows(region, chunks, c1);
    if r1.len() > 0 {
        lemma_run_transfer(region, chunks, c0, c1, 0);
        let rec = r1[0];
        let x = rec.item_id;
        let date = rec.entry.date;
        if r0.contains(rec) {
            let j = choose|j: int| 0 <= j < r0.len() && r0[j] == rec;
            lemma_insert_all_has_key(rows, r0, j);
            let k = choose|k: int| 0 <= k < first.len() && key_of(#[trigger] first[k]) == key_of(r0[j]);
            lemma_latest_date_bound(first, region, x, k);
        } else {
            let d0 = latest_date(rows, region, x).unwrap();
            let w = lemma_latest_date_witness(rows, region, x);
            lemma_insert_all_prefix(rows, r0);
            assert(first[w] == rows[w]);
            lemma_latest_date_bound(first, region, x, w);
            lemma_newer_than_cursor(date as int, d0 as int);
        }
        let d1 = latest_date(first, region, x).unwrap();
        lemma_newer_than_cursor(date as int, d1 as int);
        assert(false);
    }
    assert(r1 =~= Seq::<HistoryRecord>::empty());
}

proof fn lemma_insert_all_append(rows: Seq<HistoryRecord>, a: Seq<HistoryRecord>, b: Seq<HistoryRecord>)
    ensures
        insert_all(insert_all(rows, a), b) == insert_all(rows, a + b),
    decreases b.len(),
{
    if b.len() == 0 {
        assert(a + b =~= a);
    } else {
        lemma_insert_all_append(rows, a, b.drop_last());
        assert((a + b).drop_last() =~= a + b.drop_last());
        assert((a + b).last() == b.last());
    }
}

/// The chunks of a run as sequences of fetch outcomes.
pub open spec fn chunks_view(chunks: Seq<Vec<ItemHistory>>) -> Seq<Seq<ItemHistory>> {
    chunks.map_values(|c: Vec<ItemHistory>| c@)
}

/// The dedup invariant: inserting any records into a table with at most one
/// row per (item, region, date) keeps it so.
pub proof fn lemma_insert_keeps_keys_unique(rows: Seq<HistoryRecord>, records: Seq<HistoryRecord>)
    requires
        keys_unique(rows),
    ensures
        keys_unique(insert_all(rows, records)),
    decreases records.len(),
{
    if records.len() > 0 {
        lemma_insert_keeps_keys_unique(rows, records.drop_last());
        let acc = insert_all(rows, records.drop_last());
        let r = records.last();
        if !has_key(acc, key_of(r)) {
            let all = acc.push(r);
            assert forall|i: int, j: int|
                0 <= i < all.len() && 0 <= j < all.len() && i != j implies key_of(#[trigger] all[i])
                != key_of(#[trigger] all[j]) by {
                if i == acc.len() {
                    assert(all[j] == acc[j]);
                } else if j == acc.len() {
                    assert(all[i] == acc[i]);
                } else {
                    assert(all[i] == acc[i] && all[j] == acc[j]);
                }
            }
        }
    }
}

/// An in-memory model of the history table: the history rows of every region.
pub struct HistoryTable {
    rows: Vec<HistoryRecord>,
}

impl View for HistoryTable {
    type V = Seq<HistoryRecord>;

    closed spec fn view(&self) -> Seq<HistoryRecord> {
        self.rows@
    }
}

impl HistoryTable {
    /// At most one row per (item, region, date).
    pub open spec fn wf(&self) -> bool {
        keys_unique(self@)
    }

    /// An empty table.
    pub fn new() -> (r: Self)
        ensures
            r.wf(),
            r@ == Seq::<HistoryRecord>::empty(),
    {
        HistoryTable { rows: Vec::new() }
    }

    /// The stored rows, in insertion order.
    pub fn rows(&self) -> (r: &Vec<HistoryRecord>)
        ensures
            r@ == self@,
    {
        &self.rows
    }

    /// The number of stored rows.
    pub fn len(&self) -> (r: usize)
        ensures
            r == self@.len(),
    {
        self.rows.len()
    }

    /// The latest-history cursor of every item that has rows in `region_id`.
    pub fn latest_histories(&self, region_id: usize) -> (r: HashMap<u64, i64>)
        ensures
            r@ == cursors_of(self@, region_id),
    {
        let mut latest: HashMap<u64, i64> = HashMap::new();
        let mut i: usize = 0;
        while i < self.rows.len()
            invariant
                i <= self.rows@.len(),
                latest@ == cursors_of(self.rows@.take(i as int), region_id),
            decreases self.rows@.len() - i,
        {
            let r = &self.rows[i];
            let ghost prefix = self.rows@.take(i as int);
            let ghost next = self.rows@.take(i + 1);
            assert(next.drop_last() =~= prefix);
            assert(next.last() == *r);
            if r.region_id == region_id {
                let cursor = cursor_of_date(r.entry.date);
                let newer = match latest.get(&r.item_id) {
                    Some(c) => cursor > *c,
                    None => true,
                };
                proof {
                    if latest_date(prefix, region_id, r.item_id) is Some {
                        let d = latest_date(prefix, region_id, r.item_id).unwrap();
                        assert(publish_instant(r.entry.date as int) > publish_instant(d as int)
                            <==> r.entry.date > d) by (nonlinear_arith);
                    }
                }
                if newer {
                    latest.insert(r.item_id, cursor);
                }
            }
            assert(latest@ =~= cursors_of(next, region_id));
            i = i + 1;
        }
        assert(self.rows@.take(self.rows@.len() as int) =~= self.rows@);
        latest
    }

    /// Stores one history run of `region_id` whose chunks were fetched with
    /// the outcomes `chunks`: the cursors are read once, at the start; each
    /// chunk that did not fail has its new rows inserted, and a failed chunk
    /// inserts nothing.
    pub fn store_history_run(&mut self, region_id: usize, chunks: &Vec<Vec<ItemHistory>>)
        requires
            old(self).wf(),
        ensures
            final(self).wf(),
            final(self)@ == insert_all(
                old(self)@,
                run_rows(region_id, chunks_view(chunks@), cursors_of(old(self)@, region_id)),
            ),
    {
        let ghost begin = self@;
        let cursors = self.latest_histories(region_id);
        let mut k: usize = 0;
        while k < chunks.len()
            invariant
                k <= chunks@.len(),
                self.wf(),
                cursors@ == cursors_of(begin, region_id),
                self@ == insert_all(
                    begin,
                    run_rows(region_id, chunks_view(chunks@.take(k as int)), cursors@),
                ),
            decreases chunks@.len() - k,
        {
            let ghost before = self@;
            let ghost done = chunks_view(chunks@.take(k as int));
            let ghost next = chunks_view(chunks@.take(k + 1));
            assert(next.drop_last() =~= done);
            assert(next.last() == chunks@[k as int]@);
            match chunk_records(region_id, &chunks[k], &cursors) {
                Ok(rows) => {
                    self.insert_items(rows);
                    proof {
                        lemma_insert_all_append(begin, run_rows(region_id, done, cursors@), rows@);
                    }
                },
                Err(_) => {
                    assert(run_rows(region_id, next, cursors@) =~= run_rows(region_id, done, cursors@));
                },
            }
            k = k + 1;
        }
        assert(chunks@.take(chunks@.len() as int) =~= chunks@);
    }

    fn contains_key(&self, item_id: u64, region_id: usize, date: i32) -> (r: bool)
        ensures
            r == has_key(self@, (item_id, region_id, date)),
    {
        let mut i: usize = 0;
        while i < self.rows.len()
            invariant
                i <= self.rows@.len(),
                forall|k: int| 0 <= k < i ==> key_of(#[trigger] self.rows@[k]) != (item_id, region_id, date),
            decreases self.rows@.len() - i,
        {
            let r = &self.rows[i];
            if r.item_id == item_id && r.region_id == region_id && r.entry.date == date {
                assert(key_of(self.rows@[i as int]) == (item_id, region_id, date));
                return true;
            }
            i = i + 1;
        }
        false
    }

    /// Inserts `records` one after another; a record whose key is already
    /// stored (or came earlier in `records`) is ignored, so stored days are
    /// never overwritten.
    pub fn insert_items(&mut self, records: Vec<HistoryRecord>)
        requires
            old(self).wf(),
        ensures
            final(self).wf(),
            final(self)@ == insert_all(old(self)@, records@),
    {
        let ghost start = self@;
        let mut i: usize = 0;
        while i < records.len()
            invariant
                i <= records@.len(),
                self.wf(),
                self@ == insert_all(start, records@.take(i as int)),
            decreases records@.len() - i,
        {
            let r = records[i];
            assert(records@.take(i + 1).drop_last() =~= records@.take(i as int));
            assert(records@.take(i + 1).last() == r);
            if !self.contains_key(r.item_id, r.region_id, r.entry.date) {
                self.rows.push(r);
            }
            i = i + 1;
        }
        assert(records@.take(records@.len() as int) =~= records@);
    }
}

} // verus!
