//! The order pipeline's decisions, and an in-memory model of the SQL order
//! table with the same write rules: an order is stored at first sight and is
//! active exactly while the latest full fetch of its region lists it.
use std::collections::HashSet;
use vstd::prelude::*;

use crate::chunks::chunk_bounds;
use crate::clock::SECONDS_PER_DAY;
use crate::models::{MarketRegionOrdersItem, Price};

verus! {

broadcast use vstd::std_specs::hash::group_hash_axioms;

/// Orders upserted per transaction.
pub const ORDER_BATCH_SIZE: usize = 1000;

/// The expiry instant of an order: issued plus its duration in days.
pub open spec fn expiry_of(o: MarketRegionOrdersItem) -> int {
    o.issued + o.duration * SECONDS_PER_DAY
}

/// The expiry of the order is a representable instant.
pub open spec fn expiry_fits(o: MarketRegionOrdersItem) -> bool {
    expiry_of(o) <= i64::MAX
}

/// A stored order. Everything but `active` is set when it is first stored.
#[derive(Clone, Copy, Debug, PartialEq, Eq, Structural)]
pub struct OrderRow {
    pub order_id: u64,
    pub item_id: u64,
    pub system_id: u64,
    pub is_buy_order: bool,
    pub issued: i64,
    pub expiry: i64,
    pub volume_remain: u64,
    pub volume_total: u64,
    pub price: Price,
    pub active: bool,
}

/// The row stored for an order seen for the first time.
pub open spec fn row_of(o: MarketRegionOrdersItem) -> OrderRow {
    OrderRow {
        order_id: o.order_id,
        item_id: o.type_id,
        system_id: o.system_id,
        is_buy_order: o.is_buy_order,
        issued: o.issued,
        expiry: expiry_of(o) as i64,
        volume_remain: o.volume_remain,
        volume_total: o.volume_total,
        price: o.price,
        active: true,
    }
}

/// The row to store for an order seen for the first time: active, expiring
/// `duration` days after it was issued.
pub fn order_row(o: &MarketRegionOrdersItem) -> (r: OrderRow)
    requires
        expiry_fits(*o),
    ensures
        r == row_of(*o),
{
    OrderRow {
        order_id: o.order_id,
        item_id: o.type_id,
        system_id: o.system_id,
        is_buy_order: o.is_buy_order,
        issued: o.issued,
        expiry: o.issued + o.duration as i64 * SECONDS_PER_DAY,
        volume_remain: o.volume_remain,
        volume_total: o.volume_total,
        price: o.price,
        active: true,
    }
}

/// The fetched orders of tradeable items, in fetched order.
pub open spec fn tradeable_orders(orders: Seq<MarketRegionOrdersItem>, tradeable: Set<u64>) -> Seq<
    MarketRegionOrdersItem,
>
    decreases orders.len(),
{
    if orders.len() == 0 {
        Seq::empty()
    } else {
        let prev = tradeable_orders(orders.drop_last(), tradeable);
        if tradeable.contains(orders.last().type_id) {
            prev.push(orders.last())
        } else {
            prev
        }
    }
}

/// Keeps the fetched orders whose item is tradeable.
pub fn filter_tradeable(orders: &Vec<MarketRegionOrdersItem>, tradeable: &HashSet<u64>) -> (r: Vec<
    MarketRegionOrdersItem,
>)
    ensures
        r@ == tradeable_orders(orders@, tradeable@),
{
    let mut out: Vec<MarketRegionOrdersItem> = Vec::new();
    let mut i: usize = 0;
    while i < orders.len()
        invariant
            i <= orders@.len(),
            out@ == tradeable_orders(orders@.take(i as int), tradeable@),
        decreases orders@.len() - i,
    {
        let o = orders[i];
        assert(orders@.take(i + 1).drop_last() =~= orders@.take(i as int));
        if tradeable.contains(&o.type_id) {
            out.push(o);
        }
        i = i + 1;
    }
    assert(orders@.take(orders@.len() as int) =~= orders@);
    out
}

/// Every order that an order run stores is of a tradeable item.
pub proof fn lemma_stored_orders_tradeable(orders: Seq<MarketRegionOrdersItem>, tradeable: Set<u64>)
    ensures
        forall|i: int|
            0 <= i < tradeable_orders(orders, tradeable).len() ==> tradeable.contains(
                (#[trigger] tradeable_orders(orders, tradeable)[i]).type_id,
            ),
    decreases orders.len(),
{
    if orders.len() > 0 {
        lemma_stored_orders_tradeable(orders.drop_last(), tradeable);
        let prev = tradeable_orders(orders.drop_last(), tradeable);
        let all = tradeable_orders(orders, tradeable);
        assert forall|i: int| 0 <= i < all.len() implies tradeable.contains((#[trigger] all[i]).type_id) by {
            if i < prev.len() {
                assert(all[i] == prev[i]);
            }
        }
    }
}

/// The ids of the fetched orders.
pub open spec fn ids_of(orders: Seq<MarketRegionOrdersItem>) -> Set<u64> {
    Set::new(|id: u64| exists|i: int| 0 <= i < orders.len() && (#[trigger] orders[i]).order_id == id)
}

/// The set of ids of the fetched orders: the orders still open.
pub fn order_ids(orders: &Vec<MarketRegionOrdersItem>) -> (r: HashSet<u64>)
    ensures
        r@ == ids_of(orders@),
{
    let mut ids: HashSet<u64> = HashSet::new();
    let mut i: usize = 0;
    while i < orders.len()
        invariant
            i <= orders@.len(),
            ids@ == ids_of(orders@.take(i as int)),
        decreases orders@.len() - i,
    {
        ids.insert(orders[i].order_id);
        proof {
            let next = orders@.take(i + 1);
            assert forall|id: u64| ids@.contains(id) <==> ids_of(next).contains(id) by {
                if id == orders@[i as int].order_id {
                    assert(next[i as int] == orders@[i as int]);
                }
                if ids_of(next).contains(id) {
                    let k = choose|k: int| 0 <= k < next.len() && (#[trigger] next[k]).order_id == id;
                    if k < i {
                        assert(orders@.take(i as int)[k] == next[k]);
                    }
                }
                if ids_of(orders@.take(i as int)).contains(id) {
                    let k = choose|k: int|
                        0 <= k < i && (#[trigger] orders@.take(i as int)[k]).order_id == id;
                    assert(next[k] == orders@.take(i as int)[k]);
                }
            }
            assert(ids@ =~= ids_of(next));
        }
        i = i + 1;
    }
    assert(orders@.take(orders@.len() as int) =~= orders@);
    ids
}

/// Some stored row has order id `id`.
pub open spec fn has_order(rows: Seq<OrderRow>, id: u64) -> bool {
    exists|i: int| 0 <= i < rows.len() && (#[trigger] rows[i]).order_id == id
}

/// No two stored rows share an order id.
pub open spec fn order_ids_unique(rows: Seq<OrderRow>) -> bool {
    forall|i: int, j: int|
        0 <= i < rows.len() && 0 <= j < rows.len() && i != j ==> (#[trigger] rows[i]).order_id
            != (#[trigger] rows[j]).order_id
}

/// The rows with the stored row of order `id` marked active again, if that
/// row belongs to one of the region's systems; every other field and every
/// other row stays as it was.
pub open spec fn reopened(rows: Seq<OrderRow>, id: u64, region_systems: Set<u64>) -> Seq<OrderRow> {
    Seq::new(
        rows.len(),
        |i: int|
            if rows[i].order_id == id && region_systems.contains(rows[i].system_id) {
                OrderRow { active: true, ..rows[i] }
            } else {
                rows[i]
            },
    )
}

/// The rows after storing a region's fetched `orders` one after another: an
/// order seen for the first time is added; an order already stored keeps what
/// it had at first sight, and is marked active again when it belongs to one
/// of the region's systems. Rows outside those systems are never changed.
pub open spec fn upsert_all(
    rows: Seq<OrderRow>,
    orders: Seq<MarketRegionOrdersItem>,
    region_systems: Set<u64>,
) -> Seq<OrderRow>
    decreases orders.len(),
{
    if orders.len() == 0 {
        rows
    } else {
        let acc = upsert_all(rows, orders.drop_last(), region_systems);
        if has_order(acc, orders.last().order_id) {
            reopened(acc, orders.last().order_id, region_systems)
        } else {
            acc.push(row_of(orders.last()))
        }
    }
}

/// Whether the closure pass closes `row`: it is active, belongs to one of the
/// region's systems, and was not in the fetch.
pub open spec fn is_closed_by(row: OrderRow, region_systems: Set<u64>, seen: Set<u64>) -> bool {
    row.active && region_systems.contains(row.system_id) && !seen.contains(row.order_id)
}

/// The rows after the closure pass.
pub open spec fn deactivated(rows: Seq<OrderRow>, region_systems: Set<u64>, seen: Set<u64>) -> Seq<
    OrderRow,
> {
    Seq::new(
        rows.len(),
        |i: int|
            if is_closed_by(rows[i], region_systems, seen) {
                OrderRow { active: false, ..rows[i] }
            } else {
                rows[i]
            },
    )
}

proof fn lemma_upsert_all_split(
    rows: Seq<OrderRow>,
    orders: Seq<MarketRegionOrdersItem>,
    region_systems: Set<u64>,
    a: int,
    b: int,
    c: int,
)
    requires
        0 <= a <= b <= c <= orders.len(),
    ensures
        upsert_all(upsert_all(rows, orders.subrange(a, b), region_systems), orders.subrange(b, c), region_systems)
            == upsert_all(rows, orders.subrange(a, c), region_systems),
    decreases c - b,
{
    if b < c {
        lemma_upsert_all_split(rows, orders, region_systems, a, b, c - 1);
        assert(orders.subrange(b, c).drop_last() =~= orders.subrange(b, c - 1));
        assert(orders.subrange(a, c).drop_last() =~= orders.subrange(a, c - 1));
    } else {
        assert(orders.subrange(b, c) =~= Seq::<MarketRegionOrdersItem>::empty());
    }
}

proof fn lemma_ids_of_last(orders: Seq<MarketRegionOrdersItem>, x: u64)
    requires
        orders.len() > 0,
    ensures
        ids_of(orders).contains(x) <==> (ids_of(orders.drop_last()).contains(x) || x
            == orders.last().order_id),
{
    let prev = orders.drop_last();
    if ids_of(orders).contains(x) {
        let j = choose|j: int| 0 <= j < orders.len() && (#[trigger] orders[j]).order_id == x;
        if j < prev.len() {
            assert(prev[j] == orders[j]);
        }
    }
    if ids_of(prev).contains(x) {
        let j = choose|j: int| 0 <= j < prev.len() && (#[trigger] prev[j]).order_id == x;
        assert(orders[j] == prev[j]);
    }
    if x == orders.last().order_id {
        assert(orders[orders.len() - 1].order_id == x);
    }
}

proof fn lemma_upsert_all_shape(
    rows: Seq<OrderRow>,
    orders: Seq<MarketRegionOrdersItem>,
    region_systems: Set<u64>,
)
    ensures
        upsert_all(rows, orders, region_systems).len() >= rows.len(),
        forall|i: int|
            0 <= i < rows.len() ==> #[trigger] upsert_all(rows, orders, region_systems)[i] == if ids_of(
                orders,
            ).contains(rows[i].order_id) && region_systems.contains(rows[i].system_id) {
                OrderRow { active: true, ..rows[i] }
            } else {
                rows[i]
            },
        forall|i: int|
            rows.len() <= i < upsert_all(rows, orders, region_systems).len() ==> exists|j: int|
                0 <= j < orders.len() && #[trigger] upsert_all(rows, orders, region_systems)[i]
                    == row_of(#[trigger] orders[j]),
        forall|j: int|
            0 <= j < orders.len() ==> has_order(
                upsert_all(rows, orders, region_systems),
                #[trigger] orders[j].order_id,
            ),
    decreases orders.len(),
{
    if orders.len() == 0 {
        assert forall|i: int| 0 <= i < rows.len() implies !ids_of(orders).contains(
            #[trigger] rows[i].order_id,
        ) by {}
    } else {
        let prev = orders.drop_last();
        let id = orders.last().order_id;
        let acc = upsert_all(rows, prev, region_systems);
        lemma_upsert_all_shape(rows, prev, region_systems);
        let all = upsert_all(rows, orders, region_systems);
        let marked = has_order(acc, id);
        assert forall|i: int| 0 <= i < rows.len() implies #[trigger] all[i] == if ids_of(
            orders,
        ).contains(rows[i].order_id) && region_systems.contains(rows[i].system_id) {
            OrderRow { active: true, ..rows[i] }
        } else {
            rows[i]
        } by {
            lemma_ids_of_last(orders, rows[i].order_id);
            assert(acc[i].order_id == rows[i].order_id);
            assert(acc[i].system_id == rows[i].system_id);
            if !marked && rows[i].order_id == id {
                assert(acc[i].order_id == id);
            }
        }
        assert forall|i: int| rows.len() <= i < all.len() implies exists|j: int|
            0 <= j < orders.len() && #[trigger] all[i] == row_of(#[trigger] orders[j]) by {
            if i < acc.len() {
                let j = choose|j: int| 0 <= j < prev.len() && #[trigger] acc[i] == row_of(#[trigger] prev[j]);
                assert(orders[j] == prev[j]);
                if marked {
                    assert(all[i] == acc[i]);
                }
            } else {
                assert(all[i] == row_of(orders[orders.len() - 1]));
            }
        }
        assert forall|j: int| 0 <= j < orders.len() implies has_order(all, #[trigger] orders[j].order_id) by {
            if j < prev.len() {
                assert(prev[j] == orders[j]);
                let k = choose|k: int| 0 <= k < acc.len() && (#[trigger] acc[k]).order_id == prev[j].order_id;
                assert(all[k].order_id == acc[k].order_id);
            } else if marked {
                let k = choose|k: int| 0 <= k < acc.len() && (#[trigger] acc[k]).order_id == id;
                assert(all[k].order_id == acc[k].order_id);
            } else {
                assert(all[acc.len() as int].order_id == id);
            }
        }
    }
}

/// Closure by absence: after an order run of a region (every fetched order
/// stored, then the closure pass), a row of the region's systems is active
/// exactly when the fetch listed its order; a stored row of those systems
/// keeps every other field it had. A row outside the region's systems is not
/// touched at all. Every fetched order is stored, and each newly stored row
/// is the order's row at first sight.
pub proof fn lemma_closure_by_absence(
    rows: Seq<OrderRow>,
    orders: Seq<MarketRegionOrdersItem>,
    region_systems: Set<u64>,
)
    ensures
        ({
            let ids = ids_of(orders);
            let after = deactivated(upsert_all(rows, orders, region_systems), region_systems, ids);
            &&& after.len() >= rows.len()
            &&& forall|i: int|
                0 <= i < rows.len() && ids.contains(rows[i].order_id) && region_systems.contains(
                    rows[i].system_id,
                ) ==> #[trigger] after[i] == OrderRow { active: true, ..rows[i] }
            &&& forall|i: int|
                0 <= i < rows.len() && !ids.contains(rows[i].order_id) && region_systems.contains(
                    rows[i].system_id,
                ) ==> #[trigger] after[i] == OrderRow { active: false, ..rows[i] }
            &&& forall|i: int|
                0 <= i < rows.len() && !region_systems.contains(rows[i].system_id) ==> #[trigger] after[i]
                    == rows[i]
            &&& forall|i: int|
                rows.len() <= i < after.len() ==> exists|j: int|
                    0 <= j < orders.len() && #[trigger] after[i] == row_of(#[trigger] orders[j])
            &&& forall|j: int| 0 <= j < orders.len() ==> has_order(after, #[trigger] orders[j].order_id)
            &&& forall|i: int|
                0 <= i < after.len() && region_systems.contains(after[i].system_id) ==> ((
                #[trigger] after[i]).active <==> ids.contains(after[i].order_id))
        }),
{
    let ids = ids_of(orders);
    let stored = upsert_all(rows, orders, region_systems);
    let after = deactivated(stored, region_systems, ids);
    lemma_upsert_all_shape(rows, orders, region_systems);
    assert forall|i: int|
        0 <= i < rows.len() && !ids.contains(rows[i].order_id) && region_systems.contains(
            rows[i].system_id,
        ) implies #[trigger] after[i] == OrderRow { active: false, ..rows[i] } by {
        assert(stored[i] == rows[i]);
    }
    assert forall|i: int| 0 <= i < rows.len() && !region_systems.contains(rows[i].system_id) implies
        #[trigger] after[i] == rows[i] by {
        assert(stored[i] == rows[i]);
    }
    assert forall|i: int| rows.len() <= i < after.len() implies exists|j: int|
        0 <= j < orders.len() && #[trigger] after[i] == row_of(#[trigger] orders[j]) by {
        let j = choose|j: int| 0 <= j < orders.len() && #[trigger] stored[i] == row_of(#[trigger] orders[j]);
        assert(ids.contains(orders[j].order_id));
        assert(after[i] == stored[i]);
    }
    assert forall|j: int| 0 <= j < orders.len() implies has_order(after, #[trigger] orders[j].order_id) by {
        let k = choose|k: int| 0 <= k < stored.len() && (#[trigger] stored[k]).order_id == orders[j].order_id;
        assert(after[k].order_id == stored[k].order_id);
    }
    assert forall|i: int| 0 <= i < after.len() && region_systems.contains(after[i].system_id) implies ((
    #[trigger] after[i]).active <==> ids.contains(after[i].order_id)) by {
        if i >= rows.len() {
            let j = choose|j: int| 0 <= j < orders.len() && #[trigger] stored[i] == row_of(#[trigger] orders[j]);
            assert(ids.contains(orders[j].order_id));
        }
    }
}

/// An in-memory model of the order table: the order rows of every region.
pub struct OrderTable {
    rows: Vec<OrderRow>,
}

impl View for OrderTable {
    type V = Seq<OrderRow>;

    closed spec fn view(&self) -> Seq<OrderRow> {
        self.rows@
    }
}

impl OrderTable {
    /// At most one row per order id.
    pub open spec fn wf(&self) -> bool {
        order_ids_unique(self@)
    }

    /// An empty table.
    pub fn new() -> (r: Self)
        ensures
            r.wf(),
            r@ == Seq::<OrderRow>::empty(),
    {
        OrderTable { rows: Vec::new() }
    }

    /// The stored rows, in insertion order.
    pub fn rows(&self) -> (r: &Vec<OrderRow>)
        ensures
            r@ == self@,
    {
        &self.rows
    }

    fn position_of(&self, order_id: u64) -> (r: Option<usize>)
        ensures
            match r {
                Some(k) => k < self@.len() && self@[k as int].order_id == order_id,
                None => !has_order(self@, order_id),
            },
    {
        let mut i: usize = 0;
        while i < self.rows.len()
            invariant
                i <= self.rows@.len(),
                forall|k: int| 0 <= k < i ==> (#[trigger] self.rows@[k]).order_id != order_id,
            decreases self.rows@.len() - i,
        {
            if self.rows[i].order_id == order_id {
                return Some(i);
            }
            i = i + 1;
        }
        None
    }

    /// Stores the fetched orders `orders[start..end]` of the region whose
    /// systems are `region_systems`, one after another. An order seen for the
    /// first time is added as active; an order already stored keeps what it
    /// had at first sight and is marked active again when it belongs to one of
    /// those systems.
    pub fn upsert_batch(
        &mut self,
        orders: &Vec<MarketRegionOrdersItem>,
        start: usize,
        end: usize,
        region_systems: &HashSet<u64>,
    )
        requires
            old(self).wf(),
            start <= end <= orders@.len(),
            forall|i: int| start <= i < end ==> expiry_fits(#[trigger] orders@[i]),
        ensures
            final(self).wf(),
            final(self)@ == upsert_all(
                old(self)@,
                orders@.subrange(start as int, end as int),
                region_systems@,
            ),
    {
        let ghost begin = self@;
        let mut i: usize = start;
        while i < end
            invariant
                start <= i <= end,
                end <= orders@.len(),
                forall|k: int| start <= k < end ==> expiry_fits(#[trigger] orders@[k]),
                self.wf(),
                self@ == upsert_all(begin, orders@.subrange(start as int, i as int), region_systems@),
            decreases end - i,
        {
            let o = &orders[i];
            assert(orders@.subrange(start as int, i + 1).drop_last() =~= orders@.subrange(
                start as int,
                i as int,
            ));
            assert(orders@.subrange(start as int, i + 1).last() == *o);
            match self.position_of(o.order_id) {
                Some(k) => {
                    let ghost before = self.rows@;
                    let row = self.rows[k];
                    if region_systems.contains(&row.system_id) {
                        self.rows.set(k, OrderRow { active: true, ..row });
                    }
                    assert(self.rows@ =~= reopened(before, o.order_id, region_systems@));
                },
                None => {
                    let row = order_row(o);
                    self.rows.push(row);
                },
            }
            i = i + 1;
        }
    }

    /// Stores a region's freshly fetched order book and closes what it no
    /// longer lists: the orders are upserted in batches of
    /// `ORDER_BATCH_SIZE`, in order, and only after the last batch are the
    /// active orders of `region_systems` that the fetch did not list closed.
    pub fn insert_active_items(
        &mut self,
        items: &Vec<MarketRegionOrdersItem>,
        region_systems: &HashSet<u64>,
    )
        requires
            old(self).wf(),
            forall|i: int| 0 <= i < items@.len() ==> expiry_fits(#[trigger] items@[i]),
        ensures
            final(self).wf(),
            final(self)@ == deactivated(
                upsert_all(old(self)@, items@, region_systems@),
                region_systems@,
                ids_of(items@),
            ),
            final(self)@.len() >= old(self)@.len(),
            forall|i: int|
                0 <= i < old(self)@.len() && !region_systems@.contains(old(self)@[i].system_id)
                    ==> #[trigger] final(self)@[i] == old(self)@[i],
    {
        let ghost begin = self@;
        let bounds = chunk_bounds(items.len(), ORDER_BATCH_SIZE);
        let mut b: usize = 0;
        while b < bounds.len()
            invariant
                b <= bounds@.len(),
                self.wf(),
                forall|i: int| 0 <= i < items@.len() ==> expiry_fits(#[trigger] items@[i]),
                items@.len() == 0 ==> bounds@.len() == 0,
                items@.len() > 0 ==> bounds@.len() > 0 && bounds@[0].0 == 0 && bounds@.last().1
                    == items@.len(),
                forall|k: int| 0 <= k < bounds@.len() - 1 ==> (#[trigger] bounds@[k]).1 == bounds@[k + 1].0,
                forall|k: int| 0 <= k < bounds@.len() ==> (#[trigger] bounds@[k]).0 < bounds@[k].1 <= items@.len(),
                b == 0 ==> self@ == begin,
                b > 0 ==> self@ == upsert_all(
                    begin,
                    items@.subrange(0, bounds@[b - 1].1 as int),
                    region_systems@,
                ),
            decreases bounds@.len() - b,
        {
            let (start, end) = bounds[b];
            self.upsert_batch(items, start, end, region_systems);
            proof {
                if b == 0 {
                    assert(items@.subrange(0, 0) =~= Seq::<MarketRegionOrdersItem>::empty());
                    lemma_upsert_all_split(begin, items@, region_systems@, 0, 0, end as int);
                } else {
                    assert(bounds@[b - 1].1 == start);
                    lemma_upsert_all_split(begin, items@, region_systems@, 0, start as int, end as int);
                }
            }
            b = b + 1;
        }
        proof {
            if items@.len() == 0 {
                assert(items@ =~= Seq::<MarketRegionOrdersItem>::empty());
            } else {
                assert(items@.subrange(0, items@.len() as int) =~= items@);
            }
        }
        let seen = order_ids(items);
        self.deactivate_missing(region_systems, &seen);
        proof {
            lemma_closure_by_absence(begin, items@, region_systems@);
        }
    }

    /// Closes every active order of the region's systems whose id is not in
    /// `seen`; other rows are left as they are.
    pub fn deactivate_missing(&mut self, region_systems: &HashSet<u64>, seen: &HashSet<u64>)
        requires
            old(self).wf(),
        ensures
            final(self).wf(),
            final(self)@ == deactivated(old(self)@, region_systems@, seen@),
    {
        let ghost begin = self@;
        let mut i: usize = 0;
        while i < self.rows.len()
            invariant
                i <= self.rows@.len(),
                self.rows@.len() == begin.len(),
                order_ids_unique(begin),
                forall|k: int| 0 <= k < i ==> #[trigger] self.rows@[k] == deactivated(begin, region_systems@, seen@)[k],
                forall|k: int| i <= k < begin.len() ==> #[trigger] self.rows@[k] == begin[k],
            decreases self.rows@.len() - i,
        {
            let row = self.rows[i];
            if row.active && region_systems.contains(&row.system_id) && !seen.contains(&row.order_id) {
                self.rows.set(i, OrderRow { active: false, ..row });
            }
            i = i + 1;
        }
        assert(self.rows@ =~= deactivated(begin, region_systems@, seen@));
    }
}

} // verus!
