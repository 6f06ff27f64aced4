use vstd::prelude::*;
use vstd::std_specs::cmp::PartialEqSpec;

use super::domain::{Order, OrderSide, OrderType};
use super::index_heap::{is_best, OrderIndex};
use super::order_queues::{
    drained, keeps_behind, keeps_live, keeps_other, lemma_best_iff_live, lemma_cancel_twice,
    lemma_popped, lemma_popped_live, lemma_pruned, lemma_same_orders_look_alike, same_orders,
    QueueView,
};
use super::orderbook::{
    crosses, matched, trade_events, trade_queue, type_of, BookView, Failed, Success,
    MAX_SEQUENCE_ID, MAX_STALLED_INDICES_IN_QUEUE, MIN_SEQUENCE_ID,
};
use super::orders::OrderRequest;
use super::validation::ValidationError;

verus! {

/// No two index entries carry the same id.
pub open spec fn unique_ids<T>(q: QueueView<T>) -> bool {
    &&& forall|a: OrderIndex, b: OrderIndex|
        (#[trigger] q.entries.contains(a)) && (#[trigger] q.entries.contains(b)) && a.id == b.id
            ==> a == b
    &&& forall|a: OrderIndex| #[trigger] q.entries.count(a) <= 1
}

/// The order `o` is the one that the entry `e` stands for on `side`, at a
/// positive price, and has something left to trade.
pub open spec fn agrees<Asset>(o: Order<Asset>, e: OrderIndex, side: OrderSide) -> bool {
    &&& o.order_id == e.id
    &&& o.price == e.price
    &&& o.price > 0
    &&& o.side == side
    &&& o.qty > 0
}

/// Every entry with a live id stands for the order under that id.
pub open spec fn coherent<Asset>(q: QueueView<Order<Asset>>) -> bool {
    forall|e: OrderIndex| #[trigger]
        q.entries.contains(e) && q.orders.contains_key(e.id) ==> agrees(q.orders[e.id], e, q.side)
}

/// Every live order has exactly one index entry, which stands for it, and no
/// other entry carries an id twice.
pub open spec fn queue_inv<Asset>(q: QueueView<Order<Asset>>) -> bool {
    &&& q.covered()
    &&& unique_ids(q)
    &&& coherent(q)
}

/// No live order of `q` would trade with an order on `side` at `price`.
pub open spec fn clear_of<Asset>(q: QueueView<Order<Asset>>, side: OrderSide, price: u64) -> bool {
    forall|x: OrderIndex| #[trigger]
        q.live().contains(x) ==> match side {
            OrderSide::Bid => price < x.price,
            OrderSide::Ask => price > x.price,
        }
}

/// Every live order has a positive quantity and exactly one index entry.
pub proof fn lemma_live_orders<Asset>(q: QueueView<Order<Asset>>, id: u64)
    requires
        queue_inv(q),
        q.orders.contains_key(id),
    ensures
        q.orders[id].qty > 0,
        q.orders[id].order_id == id,
        q.orders[id].side == q.side,
        exists|e: OrderIndex|
            q.entries.count(e) == 1 && e.id == id && e.price == q.orders[id].price && forall|
                x: OrderIndex,
            |
                #[trigger] q.entries.contains(x) && x.id == id ==> x == e,
{
    assert(q.indexed(id));
    let e = choose|e: OrderIndex| #[trigger] q.entries.contains(e) && e.id == id;
    assert(agrees(q.orders[id], e, q.side));
    assert(q.entries.count(e) <= 1);
    assert forall|x: OrderIndex| #[trigger] q.entries.contains(x) && x.id == id implies x == e by {}
}

/// Where the best order does not cross `price`, no live order does.
pub proof fn lemma_clear_of_best<Asset>(q: QueueView<Order<Asset>>, side: OrderSide, price: u64)
    requires
        coherent(q),
        q.side == side.opposite(),
        match q.best_order() {
            Some(resting) => match side {
                OrderSide::Bid => price < resting.price,
                OrderSide::Ask => price > resting.price,
            },
            None => true,
        },
    ensures
        clear_of(q, side, price),
{
    broadcast use vstd::multiset::group_multiset_axioms;

    lemma_best_iff_live(q);
    match q.best() {
        Some(b) => {
            assert(agrees(q.orders[b.id], b, q.side));
            assert forall|x: OrderIndex| #[trigger] q.live().contains(x) implies match side {
                OrderSide::Bid => price < x.price,
                OrderSide::Ask => price > x.price,
            } by {
                assert(!x.before(b, q.side));
            }
        },
        None => {
            assert forall|x: OrderIndex| #[trigger] q.live().contains(x) implies false by {
                vstd::multiset::axiom_count_le_len(q.live(), x);
            }
        },
    }
}

/// Pruning keeps the invariant of a queue.
pub proof fn lemma_pruned_inv<Asset>(q: QueueView<Order<Asset>>)
    requires
        queue_inv(q),
    ensures
        queue_inv(q.pruned()),
        q.pruned().live() == q.live(),
        q.pruned().orders == q.orders,
        q.pruned().side == q.side,
{
    broadcast use vstd::multiset::group_multiset_axioms;

    lemma_pruned(q);
    let p = q.pruned();
    assert forall|a: OrderIndex| #[trigger] p.entries.contains(a) implies q.entries.contains(a) by {}
    assert forall|a: OrderIndex| #[trigger] p.entries.count(a) <= 1 by {
        assert(q.entries.count(a) <= 1);
    }
}

/// Taking out the best order keeps the invariant of a queue and leaves the
/// live entries that do not carry its id.
pub proof fn lemma_popped_inv<Asset>(q: QueueView<Order<Asset>>)
    requires
        queue_inv(q),
    ensures
        queue_inv(q.popped()),
        q.popped().side == q.side,
        q.popped().live().subset_of(q.live()),
        q.best().is_some() ==> q.popped().live() == q.live().filter(
            keeps_other(q.best().unwrap().id),
        ),
        q.best().is_some() ==> q.popped().orders == q.orders.remove(q.best().unwrap().id),
        q.best().is_none() ==> q.popped().orders == q.orders,
{
    broadcast use vstd::multiset::group_multiset_axioms;

    lemma_pruned_inv(q);
    lemma_popped(q);
    lemma_best_iff_live(q);
    let p = q.pruned();
    let r = q.popped();
    match q.best() {
        Some(b) => {
            assert(keeps_behind(q.orders, b, q.side)(b));
            assert(p.entries.contains(b));
            assert forall|a: OrderIndex| #[trigger] r.entries.contains(a) implies p.entries.contains(
                a,
            ) by {}
            assert forall|a: OrderIndex| #[trigger] r.entries.count(a) <= 1 by {
                assert(p.entries.count(a) <= 1);
            }
            assert forall|x: OrderIndex|
                r.live().count(x) == q.live().filter(keeps_other(b.id)).count(x) by {
                if x.id == b.id {
                    assert(!keeps_live(r.orders)(x));
                } else {
                    assert(x != b);
                    assert(keeps_live(r.orders)(x) == keeps_live(q.orders)(x));
                    assert(p.live().count(x) == q.live().count(x));
                }
            }
            assert(r.live() =~= q.live().filter(keeps_other(b.id)));
        },
        None => {},
    }
}

/// Replacing the order of a live top entry by one that agrees with the entry
/// keeps the invariant of a queue and its live entries.
pub proof fn lemma_modified_inv<Asset>(q: QueueView<Order<Asset>>, order: Order<Asset>)
    requires
        queue_inv(q),
        q.top_is_live() ==> agrees(order, q.top().unwrap(), q.side),
    ensures
        queue_inv(q.modified(order)),
        q.modified(order).side == q.side,
        q.modified(order).live() == q.live(),
{
    broadcast use vstd::multiset::group_multiset_axioms;

    let r = q.modified(order);
    if q.top_is_live() {
        let t = q.top().unwrap();
        assert(r.orders.dom() =~= q.orders.dom());
        assert forall|k: u64| #[trigger] r.orders.contains_key(k) implies r.indexed(k) by {
            assert(q.orders.contains_key(k));
            assert(q.indexed(k));
            let e = choose|e: OrderIndex| #[trigger] q.entries.contains(e) && e.id == k;
            assert(r.entries.contains(e));
        }
        assert forall|x: OrderIndex| r.live().count(x) == q.live().count(x) by {
            assert(keeps_live(r.orders)(x) == keeps_live(q.orders)(x));
        }
        assert(r.live() =~= q.live());
        if exists|e: OrderIndex| is_best(q.entries, q.side, e) {
        }
        assert(is_best(q.entries, q.side, t));
        assert forall|e: OrderIndex| #[trigger]
            r.entries.contains(e) && r.orders.contains_key(e.id) implies agrees(
            r.orders[e.id],
            e,
            r.side,
        ) by {
            assert(q.entries.contains(e));
            if e.id == t.id {
                assert(e == t);
            } else {
                assert(agrees(q.orders[e.id], e, q.side));
            }
        }
    }
}

/// Adding an order under an id that no entry carries keeps the invariant of a
/// queue and adds one live entry.
pub proof fn lemma_inserted_inv<Asset>(
    q: QueueView<Order<Asset>>,
    id: u64,
    price: u64,
    ts: u64,
    order: Order<Asset>,
)
    requires
        queue_inv(q),
        !q.orders.contains_key(id) ==> !q.indexed(id) && agrees(
            order,
            OrderIndex { id, price, timestamp: ts },
            q.side,
        ),
    ensures
        queue_inv(q.inserted(id, price, ts, order)),
        q.inserted(id, price, ts, order).side == q.side,
        q.inserted(id, price, ts, order).live() == if q.orders.contains_key(id) {
            q.live()
        } else {
            q.live().insert(OrderIndex { id, price, timestamp: ts })
        },
{
    broadcast use vstd::multiset::group_multiset_axioms;

    let r = q.inserted(id, price, ts, order);
    let entry = OrderIndex { id, price, timestamp: ts };
    if !q.orders.contains_key(id) {
        assert(!q.entries.contains(entry));
        assert forall|k: u64| #[trigger] r.orders.contains_key(k) implies r.indexed(k) by {
            if k == id {
                assert(r.entries.contains(entry));
            } else {
                assert(q.indexed(k));
                let e = choose|e: OrderIndex| #[trigger] q.entries.contains(e) && e.id == k;
                assert(r.entries.contains(e));
            }
        }
        assert forall|a: OrderIndex, b: OrderIndex|
            (#[trigger] r.entries.contains(a)) && (#[trigger] r.entries.contains(b)) && a.id
                == b.id implies a == b by {
            if a != entry {
                assert(q.entries.contains(a));
            }
            if b != entry {
                assert(q.entries.contains(b));
            }
        }
        assert forall|a: OrderIndex| #[trigger] r.entries.count(a) <= 1 by {
            assert(q.entries.count(a) <= 1);
        }
        assert forall|e: OrderIndex| #[trigger]
            r.entries.contains(e) && r.orders.contains_key(e.id) implies agrees(
            r.orders[e.id],
            e,
            r.side,
        ) by {
            if e != entry {
                assert(q.entries.contains(e));
                assert(e.id != id);
                assert(agrees(q.orders[e.id], e, q.side));
            }
        }
        assert forall|x: OrderIndex| r.live().count(x) == q.live().insert(entry).count(x) by {
            if x == entry {
                assert(keeps_live(r.orders)(x));
                assert(q.entries.count(x) == 0);
            } else if x.id == id {
                assert(!q.entries.contains(x));
            } else {
                assert(keeps_live(r.orders)(x) == keeps_live(q.orders)(x));
            }
        }
        assert(r.live() =~= q.live().insert(entry));
    }
}

/// Replacing a live order by one that agrees with its new entry keeps the
/// invariant of a queue; the live entries are those of the other orders and
/// the new entry.
pub proof fn lemma_amended_inv<Asset>(
    q: QueueView<Order<Asset>>,
    id: u64,
    price: u64,
    ts: u64,
    order: Order<Asset>,
)
    requires
        queue_inv(q),
        agrees(order, OrderIndex { id, price, timestamp: ts }, q.side),
    ensures
        queue_inv(q.amended(id, price, ts, order)),
        q.amended(id, price, ts, order).side == q.side,
        q.amended(id, price, ts, order).live() == if q.orders.contains_key(id) {
            q.live().filter(keeps_other(id)).insert(OrderIndex { id, price, timestamp: ts })
        } else {
            q.live()
        },
{
    broadcast use vstd::multiset::group_multiset_axioms;

    let r = q.amended(id, price, ts, order);
    let entry = OrderIndex { id, price, timestamp: ts };
    if q.orders.contains_key(id) {
        assert(r.orders.dom() =~= q.orders.dom());
        assert forall|k: u64| #[trigger] r.orders.contains_key(k) implies r.indexed(k) by {
            if k == id {
                assert(r.entries.contains(entry));
            } else {
                assert(q.indexed(k));
                let e = choose|e: OrderIndex| #[trigger] q.entries.contains(e) && e.id == k;
                assert(keeps_other(id)(e));
                assert(r.entries.contains(e));
            }
        }
        assert forall|a: OrderIndex, b: OrderIndex|
            (#[trigger] r.entries.contains(a)) && (#[trigger] r.entries.contains(b)) && a.id
                == b.id implies a == b by {
            if a != entry {
                assert(q.entries.contains(a) && keeps_other(id)(a));
            }
            if b != entry {
                assert(q.entries.contains(b) && keeps_other(id)(b));
            }
        }
        assert forall|a: OrderIndex| #[trigger] r.entries.count(a) <= 1 by {
            assert(q.entries.count(a) <= 1);
            if a == entry {
                assert(!keeps_other(id)(a));
            }
        }
        assert forall|e: OrderIndex| #[trigger]
            r.entries.contains(e) && r.orders.contains_key(e.id) implies agrees(
            r.orders[e.id],
            e,
            r.side,
        ) by {
            if e != entry {
                assert(q.entries.contains(e) && keeps_other(id)(e));
                assert(agrees(q.orders[e.id], e, q.side));
            }
        }
        assert forall|x: OrderIndex|
            r.live().count(x) == q.live().filter(keeps_other(id)).insert(entry).count(x) by {
            assert(keeps_live(r.orders)(x) == keeps_live(q.orders)(x));
            if x == entry {
                assert(!keeps_other(id)(x));
            }
        }
        assert(r.live() =~= q.live().filter(keeps_other(id)).insert(entry));
    }
}

/// Withdrawing an order keeps the invariant of a queue and leaves the live
/// entries that do not carry its id.
pub proof fn lemma_cancelled_inv<Asset>(q: QueueView<Order<Asset>>, id: u64)
    requires
        queue_inv(q),
    ensures
        queue_inv(q.cancelled(id)),
        q.cancelled(id).side == q.side,
        q.cancelled(id).orders == q.orders.remove(id),
        q.cancelled(id).live() == q.live().filter(keeps_other(id)),
{
    broadcast use vstd::multiset::group_multiset_axioms;

    let r = q.cancelled(id);
    if q.orders.contains_key(id) {
        let mid = QueueView { orders: q.orders.remove(id), ..q };
        assert forall|x: OrderIndex|
            mid.live().count(x) == q.live().filter(keeps_other(id)).count(x) by {
            if x.id != id {
                assert(keeps_live(mid.orders)(x) == keeps_live(q.orders)(x));
            } else {
                assert(!keeps_live(mid.orders)(x));
            }
        }
        assert(mid.live() =~= q.live().filter(keeps_other(id)));
        assert forall|x: OrderIndex| r.live().count(x) == mid.live().count(x) by {
            assert(keeps_live(r.orders)(x) == keeps_live(mid.orders)(x));
        }
        assert(r.live() =~= mid.live());
        assert forall|k: u64| #[trigger] r.orders.contains_key(k) implies r.indexed(k) by {
            assert(q.orders.contains_key(k));
            assert(q.indexed(k));
            let e = choose|e: OrderIndex| #[trigger] q.entries.contains(e) && e.id == k;
            assert(keeps_live(mid.orders)(e));
            assert(mid.live().contains(e));
            assert(r.entries.contains(e));
        }
        assert forall|a: OrderIndex| #[trigger] r.entries.contains(a) implies q.entries.contains(
            a,
        ) by {}
        assert forall|a: OrderIndex| #[trigger] r.entries.count(a) <= 1 by {
            assert(q.entries.count(a) <= 1);
        }
        assert forall|e: OrderIndex| #[trigger]
            r.entries.contains(e) && r.orders.contains_key(e.id) implies agrees(
            r.orders[e.id],
            e,
            r.side,
        ) by {
            assert(q.entries.contains(e));
            assert(agrees(q.orders[e.id], e, q.side));
        }
    } else {
        assert(q.orders.remove(id) =~= q.orders);
        assert forall|x: OrderIndex|
            q.live().count(x) == q.live().filter(keeps_other(id)).count(x) by {
            if x.id == id {
                assert(!keeps_live(q.orders)(x));
            }
        }
        assert(q.live() =~= q.live().filter(keeps_other(id)));
    }
}

/// Where no id occurs twice among the entries, a run of `pop` hands out each
/// live order once: the entries it hands out are the live entries.
pub proof fn lemma_drained_all<T>(q: QueueView<T>)
    requires
        unique_ids(q),
    ensures
        drained(q).to_multiset() == q.live(),
        drained(q).len() == q.live().len(),
    decreases q.entries.len(),
{
    broadcast use vstd::multiset::group_multiset_axioms;
    broadcast use vstd::seq_lib::group_to_multiset_ensures;

    lemma_best_iff_live(q);
    lemma_pruned(q);
    lemma_popped(q);
    lemma_popped_live(q);
    match q.best() {
        None => {
            assert(drained(q) =~= Seq::<OrderIndex>::empty());
            vstd::multiset::lemma_multiset_empty_len(q.live());
            assert(drained(q).to_multiset() =~= q.live());
        },
        Some(b) => {
            let r = q.popped();
            assert forall|a: OrderIndex| #[trigger] r.entries.contains(a) implies q.entries.contains(
                a,
            ) by {}
            assert forall|a: OrderIndex| #[trigger] r.entries.count(a) <= 1 by {
                assert(q.entries.count(a) <= 1);
            }
            lemma_drained_all(r);
            let rest = drained(r);
            assert(drained(q) =~= rest.insert(0, b));
            assert forall|x: OrderIndex| r.live().insert(b).count(x) == q.live().count(x) by {
                assert(q.entries.count(x) <= 1);
                if x.id == b.id && q.live().contains(x) {
                    assert(q.entries.contains(x) && q.entries.contains(b));
                }
            }
            assert(r.live().insert(b) =~= q.live());
        },
    }
}

/// What a report says of a trade: who traded, at which price, how much, and
/// whether the order was filled by it.
pub struct Fill {
    pub order_id: u64,
    pub side: OrderSide,
    pub order_type: OrderType,
    pub price: u64,
    pub qty: u64,
    pub ts: u64,
    pub complete: bool,
}

/// The trade that `event` reports, if it reports one.
pub open spec fn fill_of(event: Result<Success, Failed>) -> Option<Fill> {
    match event {
        Ok(Success::Filled { order_id, side, order_type, price, qty, ts }) => Some(
            Fill { order_id, side, order_type, price, qty, ts, complete: true },
        ),
        Ok(Success::PartiallyFilled { order_id, side, order_type, price, qty, ts }) => Some(
            Fill { order_id, side, order_type, price, qty, ts, complete: false },
        ),
        _ => None,
    }
}

/// The quantity that `event` reports as traded by order `id` on `side`.
pub open spec fn credit(event: Result<Success, Failed>, id: u64, side: OrderSide) -> nat {
    match fill_of(event) {
        Some(f) => if f.order_id == id && f.side == side {
            f.qty as nat
        } else {
            0
        },
        None => 0,
    }
}

/// The quantity that `events` report as traded by order `id` on `side`.
pub open spec fn filled_qty(events: Seq<Result<Success, Failed>>, id: u64, side: OrderSide) -> nat
    decreases events.len(),
{
    if events.len() == 0 {
        0
    } else {
        filled_qty(events.drop_last(), id, side) + credit(events.last(), id, side)
    }
}

/// `taker` and `maker` report the two sides of one trade of the incoming order
/// `id`: a positive quantity, the same on both sides, at one price and time,
/// against a limit order of the opposite side, and at least one of the two
/// orders is filled by it.
pub open spec fn is_trade(
    taker: Result<Success, Failed>,
    maker: Result<Success, Failed>,
    id: u64,
    side: OrderSide,
    order_type: OrderType,
) -> bool {
    match (fill_of(taker), fill_of(maker)) {
        (Some(t), Some(m)) => {
            &&& t.order_id == id
            &&& t.side == side
            &&& t.order_type == order_type
            &&& m.side == side.opposite()
            &&& m.order_type == OrderType::Limit
            &&& t.price == m.price
            &&& t.qty == m.qty
            &&& t.qty > 0
            &&& t.ts == m.ts
            &&& (t.complete || m.complete)
        },
        _ => false,
    }
}

/// `events` are the reports of trades of the incoming order `id`, two for
/// each trade, the incoming order's first.
pub open spec fn trades_only(
    events: Seq<Result<Success, Failed>>,
    id: u64,
    side: OrderSide,
    order_type: OrderType,
) -> bool
    decreases events.len(),
{
    if events.len() == 0 {
        true
    } else if events.len() == 1 {
        false
    } else {
        is_trade(events[0], events[1], id, side, order_type) && trades_only(
            events.skip(2),
            id,
            side,
            order_type,
        )
    }
}

/// The quantity reported by two lists of events is the sum of what each
/// reports.
pub proof fn lemma_filled_qty_concat(
    a: Seq<Result<Success, Failed>>,
    b: Seq<Result<Success, Failed>>,
    id: u64,
    side: OrderSide,
)
    ensures
        filled_qty(a + b, id, side) == filled_qty(a, id, side) + filled_qty(b, id, side),
    decreases b.len(),
{
    if b.len() == 0 {
        assert(a + b =~= a);
    } else {
        assert((a + b).drop_last() =~= a + b.drop_last());
        assert((a + b).last() == b.last());
        lemma_filled_qty_concat(a, b.drop_last(), id, side);
    }
}

/// One event reports what it credits.
pub proof fn lemma_filled_qty_one(e: Result<Success, Failed>, id: u64, side: OrderSide)
    ensures
        filled_qty(seq![e], id, side) == credit(e, id, side),
{
    assert(seq![e].drop_last() =~= Seq::<Result<Success, Failed>>::empty());
    assert(filled_qty(seq![e].drop_last(), id, side) == 0);
}

/// The reports of one trade credit the incoming order with the smaller of
/// the two quantities.
pub proof fn lemma_trade_events<Asset>(
    id: u64,
    side: OrderSide,
    order_type: OrderType,
    qty: u64,
    resting: Order<Asset>,
    now: u64,
)
    requires
        qty > 0,
        resting.qty > 0,
        resting.side == side.opposite(),
    ensures
        trade_events(id, side, order_type, qty, resting, now).len() == 2,
        is_trade(
            trade_events(id, side, order_type, qty, resting, now)[0],
            trade_events(id, side, order_type, qty, resting, now)[1],
            id,
            side,
            order_type,
        ),
        fill_of(trade_events(id, side, order_type, qty, resting, now)[0]).unwrap().price
            == resting.price,
        fill_of(trade_events(id, side, order_type, qty, resting, now)[0]).unwrap().ts == now,
        fill_of(trade_events(id, side, order_type, qty, resting, now)[0]).unwrap().qty == if qty
            < resting.qty {
            qty
        } else {
            resting.qty
        },
        fill_of(trade_events(id, side, order_type, qty, resting, now)[1]).unwrap().order_id
            == resting.order_id,
        filled_qty(trade_events(id, side, order_type, qty, resting, now), id, side) == if qty
            < resting.qty {
            qty
        } else {
            resting.qty
        },
{
    let te = trade_events(id, side, order_type, qty, resting, now);
    assert(te =~= seq![te[0]] + seq![te[1]]);
    lemma_filled_qty_concat(seq![te[0]], seq![te[1]], id, side);
    lemma_filled_qty_one(te[0], id, side);
    lemma_filled_qty_one(te[1], id, side);
}

/// Every report of a list of trades is a fill.
pub proof fn lemma_trades_are_fills(
    events: Seq<Result<Success, Failed>>,
    id: u64,
    side: OrderSide,
    order_type: OrderType,
    i: int,
)
    requires
        trades_only(events, id, side, order_type),
        0 <= i < events.len(),
    ensures
        fill_of(events[i]).is_some(),
        events.len() % 2 == 0,
    decreases events.len(),
{
    if events.len() >= 2 {
        let rest = events.skip(2);
        if i >= 2 {
            lemma_trades_are_fills(rest, id, side, order_type, i - 2);
            assert(rest[i - 2] == events[i]);
        } else if rest.len() > 0 {
            lemma_trades_are_fills(rest, id, side, order_type, 0);
        }
    }
}

/// The quantity that `events` report as traded by the orders of `side`.
pub open spec fn traded_on(events: Seq<Result<Success, Failed>>, side: OrderSide) -> nat
    decreases events.len(),
{
    if events.len() == 0 {
        0
    } else {
        traded_on(events.drop_last(), side) + match fill_of(events.last()) {
            Some(f) => if f.side == side {
                f.qty as nat
            } else {
                0
            },
            None => 0,
        }
    }
}

/// The quantity that two lists of events report for a side is the sum of
/// what each reports.
pub proof fn lemma_traded_on_concat(
    a: Seq<Result<Success, Failed>>,
    b: Seq<Result<Success, Failed>>,
    side: OrderSide,
)
    ensures
        traded_on(a + b, side) == traded_on(a, side) + traded_on(b, side),
    decreases b.len(),
{
    if b.len() == 0 {
        assert(a + b =~= a);
    } else {
        assert((a + b).drop_last() =~= a + b.drop_last());
        assert((a + b).last() == b.last());
        lemma_traded_on_concat(a, b.drop_last(), side);
    }
}

/// In the reports of the trades of an incoming order, the resting side
/// traded what the incoming order traded, and no other order of the incoming
/// order's side traded.
pub proof fn lemma_trades_balance(
    events: Seq<Result<Success, Failed>>,
    id: u64,
    side: OrderSide,
    order_type: OrderType,
)
    requires
        trades_only(events, id, side, order_type),
    ensures
        traded_on(events, side.opposite()) == filled_qty(events, id, side),
        traded_on(events, side) == filled_qty(events, id, side),
    decreases events.len(),
{
    if events.len() >= 2 {
        let pair = seq![events[0], events[1]];
        let rest = events.skip(2);
        assert(events =~= pair + rest);
        lemma_trades_balance(rest, id, side, order_type);
        lemma_traded_on_concat(pair, rest, side);
        lemma_traded_on_concat(pair, rest, side.opposite());
        lemma_filled_qty_concat(pair, rest, id, side);
        let first = seq![events[0]];
        let second = seq![events[1]];
        assert(pair =~= first + second);
        lemma_traded_on_concat(first, second, side);
        lemma_traded_on_concat(first, second, side.opposite());
        lemma_filled_qty_concat(first, second, id, side);
        lemma_filled_qty_one(events[0], id, side);
        lemma_filled_qty_one(events[1], id, side);
        assert(first.drop_last() =~= Seq::<Result<Success, Failed>>::empty());
        assert(second.drop_last() =~= Seq::<Result<Success, Failed>>::empty());
        assert(traded_on(first.drop_last(), side) == 0);
        assert(traded_on(second.drop_last(), side) == 0);
        assert(traded_on(first.drop_last(), side.opposite()) == 0);
        assert(traded_on(second.drop_last(), side.opposite()) == 0);
    }
}

/// The quantity that stayed without a counterpart, zero where none did.
pub open spec fn left_over(unfilled: Option<u64>) -> nat {
    match unfilled {
        Some(rest) => rest as nat,
        None => 0,
    }
}

/// Matching keeps the invariant of the opposite queue and takes live orders
/// away only. Its reports are trades of the incoming order, the incoming and
/// the resting side of each for the same quantity. What the incoming order
/// traded and what is left of it add up to its quantity; something is left
/// only where no live order crosses any more.
pub proof fn lemma_matched<Asset>(
    q: QueueView<Order<Asset>>,
    id: u64,
    side: OrderSide,
    limit: Option<u64>,
    qty: u64,
    now: u64,
)
    requires
        queue_inv(q),
        q.side == side.opposite(),
        qty > 0,
    ensures
        queue_inv(matched(q, id, side, limit, qty, now).opposite),
        matched(q, id, side, limit, qty, now).opposite.side == q.side,
        matched(q, id, side, limit, qty, now).opposite.live().subset_of(q.live()),
        trades_only(matched(q, id, side, limit, qty, now).events, id, side, type_of(limit)),
        filled_qty(matched(q, id, side, limit, qty, now).events, id, side) + left_over(
            matched(q, id, side, limit, qty, now).unfilled,
        ) == qty,
        match matched(q, id, side, limit, qty, now).unfilled {
            Some(rest) => {
                &&& rest > 0
                &&& match limit {
                    Some(price) => clear_of(
                        matched(q, id, side, limit, qty, now).opposite,
                        side,
                        price,
                    ),
                    None => matched(q, id, side, limit, qty, now).opposite.live().len() == 0,
                }
            },
            None => true,
        },
    decreases q.entries.len(),
{
    broadcast use vstd::multiset::group_multiset_axioms;

    let m = matched(q, id, side, limit, qty, now);
    let p = q.pruned();
    lemma_pruned_inv(q);
    lemma_pruned(q);
    lemma_best_iff_live(q);
    lemma_best_iff_live(p);
    match q.best_order() {
        None => {
            match limit {
                Some(price) => {
                    lemma_clear_of_best(p, side, price);
                },
                None => {},
            }
        },
        Some(resting) => {
            let b = q.best().unwrap();
            assert(agrees(q.orders[b.id], b, q.side));
            if !crosses(side, limit, resting.price) {
                lemma_clear_of_best(p, side, limit.unwrap());
            } else {
                let te = trade_events(id, side, type_of(limit), qty, resting, now);
                lemma_trade_events(id, side, type_of(limit), qty, resting, now);
                if qty > resting.qty {
                    lemma_popped(q);
                    lemma_popped_inv(p);
                    let rest_qty = (qty - resting.qty) as u64;
                    let rest = matched(p.popped(), id, side, limit, rest_qty, now);
                    lemma_matched(p.popped(), id, side, limit, rest_qty, now);
                    assert(m.events == te + rest.events);
                    assert((te + rest.events).skip(2) =~= rest.events);
                    assert(m.events[0] == te[0] && m.events[1] == te[1]);
                    lemma_filled_qty_concat(te, rest.events, id, side);
                    assert forall|x: OrderIndex|
                        m.opposite.live().count(x) <= q.live().count(x) by {
                        assert(rest.opposite.live().count(x) <= p.popped().live().count(x));
                        assert(p.popped().live().count(x) <= p.live().count(x));
                    }
                } else {
                    assert(te.skip(2) =~= Seq::<Result<Success, Failed>>::empty());
                    assert(trades_only(te.skip(2), id, side, type_of(limit)));
                    if qty < resting.qty {
                        let remaining = Order { qty: (resting.qty - qty) as u64, ..resting };
                        lemma_modified_inv(p, remaining);
                    } else {
                        lemma_popped_inv(p);
                    }
                    assert forall|x: OrderIndex|
                        m.opposite.live().count(x) <= q.live().count(x) by {
                        assert(trade_queue(p, qty, resting).live().count(x) <= p.live().count(x));
                    }
                }
            }
        },
    }
}

/// `event` reports that the order `id` on `side` was filled.
pub open spec fn is_completion(event: Result<Success, Failed>, id: u64, side: OrderSide) -> bool {
    match fill_of(event) {
        Some(f) => f.order_id == id && f.side == side && f.complete,
        None => false,
    }
}

/// One of `events` reports that the order `id` on `side` was filled.
pub open spec fn completes(events: Seq<Result<Success, Failed>>, id: u64, side: OrderSide) -> bool {
    exists|i: int| 0 <= i < events.len() && is_completion(#[trigger] events[i], id, side)
}

/// A list of events reports a fill of an order exactly where one of its two
/// parts does.
pub proof fn lemma_completes_concat(
    a: Seq<Result<Success, Failed>>,
    b: Seq<Result<Success, Failed>>,
    id: u64,
    side: OrderSide,
)
    ensures
        completes(a + b, id, side) <==> completes(a, id, side) || completes(b, id, side),
{
    let ab = a + b;
    if completes(ab, id, side) {
        let i = choose|i: int| 0 <= i < ab.len() && is_completion(#[trigger] ab[i], id, side);
        if i < a.len() {
            assert(is_completion(a[i], id, side));
        } else {
            assert(is_completion(b[i - a.len()], id, side));
        }
    }
    if completes(a, id, side) {
        let i = choose|i: int| 0 <= i < a.len() && is_completion(#[trigger] a[i], id, side);
        assert(is_completion(ab[i], id, side));
    }
    if completes(b, id, side) {
        let i = choose|i: int| 0 <= i < b.len() && is_completion(#[trigger] b[i], id, side);
        assert(is_completion(ab[i + a.len()], id, side));
    }
}

/// Matching leaves nothing of the incoming order exactly where one of its
/// reports says that the order was filled.
pub proof fn lemma_matched_completes<Asset>(
    q: QueueView<Order<Asset>>,
    id: u64,
    side: OrderSide,
    limit: Option<u64>,
    qty: u64,
    now: u64,
)
    requires
        queue_inv(q),
        q.side == side.opposite(),
        qty > 0,
    ensures
        matched(q, id, side, limit, qty, now).unfilled.is_none() <==> completes(
            matched(q, id, side, limit, qty, now).events,
            id,
            side,
        ),
    decreases q.entries.len(),
{
    let m = matched(q, id, side, limit, qty, now);
    let p = q.pruned();
    lemma_pruned_inv(q);
    lemma_pruned(q);
    lemma_best_iff_live(q);
    match q.best_order() {
        None => {},
        Some(resting) => {
            let b = q.best().unwrap();
            assert(agrees(q.orders[b.id], b, q.side));
            if crosses(side, limit, resting.price) {
                let te = trade_events(id, side, type_of(limit), qty, resting, now);
                if qty > resting.qty {
                    lemma_popped(q);
                    lemma_popped_inv(p);
                    let rest_qty = (qty - resting.qty) as u64;
                    let rest = matched(p.popped(), id, side, limit, rest_qty, now);
                    lemma_matched_completes(p.popped(), id, side, limit, rest_qty, now);
                    lemma_completes_concat(te, rest.events, id, side);
                    if completes(te, id, side) {
                        let i = choose|i: int|
                            0 <= i < te.len() && is_completion(#[trigger] te[i], id, side);
                        assert(i == 0 || i == 1);
                    }
                } else {
                    assert(is_completion(te[0], id, side));
                }
            }
        },
    }
}

/// One trade leaves the resting order in its queue with strictly less than it
/// had, but something, or takes it out where nothing is left of it. No other
/// order changes.
pub proof fn lemma_trade_queue<Asset>(q: QueueView<Order<Asset>>, qty: u64)
    requires
        queue_inv(q),
        q.best_order().is_some(),
        qty > 0,
    ensures
        ({
            let resting = q.best_order().unwrap();
            let id = q.best().unwrap().id;
            let after = trade_queue(q.pruned(), qty, resting);
            if qty < resting.qty {
                &&& after.orders == q.orders.insert(
                    id,
                    Order { qty: (resting.qty - qty) as u64, ..resting },
                )
                &&& 0 < after.orders[id].qty < resting.qty
                &&& after.live() == q.live()
            } else {
                &&& after.orders == q.orders.remove(id)
                &&& after.live() == q.live().filter(keeps_other(id))
            }
        }),
{
    lemma_pruned_inv(q);
    lemma_pruned(q);
    lemma_popped(q);
    lemma_popped_inv(q);
    lemma_best_iff_live(q);
    let resting = q.best_order().unwrap();
    let b = q.best().unwrap();
    if qty < resting.qty {
        let remaining = Order { qty: (resting.qty - qty) as u64, ..resting };
        assert(agrees(q.orders[b.id], b, q.side));
        lemma_modified_inv(q.pruned(), remaining);
    }
}

/// What matching leaves of a limit order comes to rest on its side under its
/// id, at its price; where nothing is left, its side stays as it was. A
/// market order leaves its side as it was.
pub proof fn lemma_remainder_rests<Asset>(
    book: BookView<Asset>,
    id: u64,
    order_asset: Asset,
    price_asset: Asset,
    side: OrderSide,
    price: u64,
    qty: u64,
    ts: u64,
    now: u64,
)
    requires
        book.inv(),
        qty > 0,
        !book.queue(side).orders.contains_key(id),
    ensures
        ({
            let after = book.after_limit(id, order_asset, price_asset, side, price, qty, ts, now);
            let traded = filled_qty(after.events, id, side);
            if traded < qty {
                &&& !completes(after.events, id, side)
                &&& after.book.queue(side).orders == book.queue(side).orders.insert(
                    id,
                    Order {
                        order_id: id,
                        order_asset,
                        price_asset,
                        side,
                        price,
                        qty: (qty - traded) as u64,
                    },
                )
            } else {
                &&& traded == qty
                &&& completes(after.events, id, side)
                &&& after.book.queue(side) == book.queue(side)
            }
        }),
        book.after_market(id, side, qty, now).book.queue(side) == book.queue(side),
        filled_qty(book.after_market(id, side, qty, now).events, id, side) == qty <==> completes(
            book.after_market(id, side, qty, now).events,
            id,
            side,
        ),
{
    let opp = book.queue(side.opposite());
    let m = matched(opp, id, side, Some(price), qty, now);
    lemma_matched(opp, id, side, Some(price), qty, now);
    lemma_matched_completes(opp, id, side, Some(price), qty, now);
    let after = book.after_limit(id, order_asset, price_asset, side, price, qty, ts, now);
    let traded = book.with_queue(side.opposite(), m.opposite);
    assert(traded.queue(side) == book.queue(side));
    match m.unfilled {
        Some(rest) => {
            let s = traded.stored(id, order_asset, price_asset, side, price, rest, ts);
            assert(s.events =~= Seq::<Result<Success, Failed>>::empty());
            assert(after.events =~= m.events);
        },
        None => {},
    }
    let mm = matched(opp, id, side, None, qty, now);
    lemma_matched(opp, id, side, None, qty, now);
    lemma_matched_completes(opp, id, side, None, qty, now);
    let tail = seq![Err::<Success, Failed>(Failed::NoMatch(id))];
    if mm.unfilled.is_some() {
        lemma_filled_qty_concat(mm.events, tail, id, side);
        lemma_filled_qty_one(tail[0], id, side);
        lemma_completes_concat(mm.events, tail, id, side);
        assert(book.after_market(id, side, qty, now).events =~= mm.events + tail);
        if completes(tail, id, side) {
            let i = choose|i: int| 0 <= i < tail.len() && is_completion(#[trigger] tail[i], id, side);
        }
    }
}

/// The quantity that rests in a queue: the quantities of its live orders,
/// added up in the order in which the orders would leave.
pub open spec fn resting_qty<Asset>(q: QueueView<Order<Asset>>) -> nat
    decreases q.entries.len(),
{
    match q.best() {
        None => 0,
        Some(b) => {
            proof {
                lemma_popped(q);
            }
            q.orders[b.id].qty as nat + resting_qty(q.popped())
        },
    }
}

/// Queues with the same live orders hold the same quantity.
pub proof fn lemma_resting_same<Asset>(a: QueueView<Order<Asset>>, b: QueueView<Order<Asset>>)
    requires
        same_orders(a, b),
    ensures
        resting_qty(a) == resting_qty(b),
    decreases a.entries.len(),
{
    lemma_same_orders_look_alike(a, b);
    lemma_popped(a);
    if a.best().is_some() {
        lemma_resting_same(a.popped(), b.popped());
    }
}

/// Replacing the order of a live top entry changes the quantity that rests by
/// the difference of the two orders' quantities.
pub proof fn lemma_resting_modified<Asset>(p: QueueView<Order<Asset>>, order: Order<Asset>)
    requires
        p.top_is_live(),
        p.top() == p.best(),
    ensures
        resting_qty(p.modified(order)) + p.orders[p.best().unwrap().id].qty == resting_qty(p)
            + order.qty,
{
    broadcast use vstd::multiset::group_multiset_axioms;

    let m = p.modified(order);
    let b = p.best().unwrap();
    assert(m.orders.dom() =~= p.orders.dom());
    assert forall|x: OrderIndex| m.live().count(x) == p.live().count(x) by {
        assert(keeps_live(m.orders)(x) == keeps_live(p.orders)(x));
    }
    assert(m.live() =~= p.live());
    lemma_popped_live(m);
    lemma_popped_live(p);
    assert(m.orders.remove(b.id) =~= p.orders.remove(b.id));
    lemma_resting_same(m.popped(), p.popped());
}

/// No quantity is made or lost in matching: what rested on the opposite side
/// before is what rests there afterwards and what the incoming order traded.
pub proof fn lemma_matched_conserves<Asset>(
    q: QueueView<Order<Asset>>,
    id: u64,
    side: OrderSide,
    limit: Option<u64>,
    qty: u64,
    now: u64,
)
    requires
        queue_inv(q),
        q.side == side.opposite(),
        qty > 0,
    ensures
        resting_qty(matched(q, id, side, limit, qty, now).opposite) + filled_qty(
            matched(q, id, side, limit, qty, now).events,
            id,
            side,
        ) == resting_qty(q),
    decreases q.entries.len(),
{
    let m = matched(q, id, side, limit, qty, now);
    let p = q.pruned();
    lemma_pruned_inv(q);
    lemma_pruned(q);
    lemma_popped(q);
    lemma_best_iff_live(q);
    lemma_resting_same(p, q);
    match q.best_order() {
        None => {},
        Some(resting) => {
            let b = q.best().unwrap();
            assert(agrees(q.orders[b.id], b, q.side));
            if crosses(side, limit, resting.price) {
                let te = trade_events(id, side, type_of(limit), qty, resting, now);
                lemma_trade_events(id, side, type_of(limit), qty, resting, now);
                if qty > resting.qty {
                    lemma_popped_inv(p);
                    let rest_qty = (qty - resting.qty) as u64;
                    let rest = matched(p.popped(), id, side, limit, rest_qty, now);
                    lemma_matched_conserves(p.popped(), id, side, limit, rest_qty, now);
                    lemma_filled_qty_concat(te, rest.events, id, side);
                } else if qty < resting.qty {
                    let remaining = Order { qty: (resting.qty - qty) as u64, ..resting };
                    lemma_resting_modified(p, remaining);
                }
            }
        },
    }
}

/// An order that comes to rest under an id that no entry carries adds its
/// quantity to what rests in the queue.
pub proof fn lemma_resting_inserted<Asset>(
    q: QueueView<Order<Asset>>,
    id: u64,
    price: u64,
    ts: u64,
    order: Order<Asset>,
)
    requires
        queue_inv(q),
        !q.orders.contains_key(id),
        !q.indexed(id),
        agrees(order, OrderIndex { id, price, timestamp: ts }, q.side),
    ensures
        resting_qty(q.inserted(id, price, ts, order)) == resting_qty(q) + order.qty,
    decreases q.entries.len(),
{
    broadcast use vstd::multiset::group_multiset_axioms;

    let e = OrderIndex { id, price, timestamp: ts };
    let r = q.inserted(id, price, ts, order);
    lemma_inserted_inv(q, id, price, ts, order);
    lemma_best_iff_live(q);
    lemma_best_iff_live(r);
    lemma_popped(q);
    lemma_popped(r);
    lemma_popped_live(q);
    lemma_popped_live(r);
    lemma_popped_inv(q);
    assert(r.live().contains(e));
    let top = r.best().unwrap();
    assert(!q.entries.contains(e));
    assert(!q.live().contains(e));
    if top == e {
        assert(r.orders.remove(id) =~= q.orders);
        assert forall|x: OrderIndex|
            r.live().filter(keeps_other(id)).count(x) == q.live().count(x) by {
            if x.id == id {
                assert(!keeps_live(q.orders)(x));
            }
        }
        assert(r.live().filter(keeps_other(id)) =~= q.live());
        lemma_resting_same(r.popped(), q);
    } else {
        assert(q.live().contains(top));
        assert forall|x: OrderIndex| #[trigger] q.live().contains(x) implies !x.before(
            top,
            q.side,
        ) by {
            assert(r.live().contains(x));
        }
        super::index_heap::lemma_best_unique(q.live(), q.side, top);
        assert(q.best() == Some(top));
        assert(top.id != id);
        let fewer = q.popped();
        assert(!fewer.indexed(id)) by {
            if fewer.indexed(id) {
                let w = choose|w: OrderIndex| #[trigger] fewer.entries.contains(w) && w.id == id;
                lemma_pruned(q);
                assert(q.entries.contains(w));
            }
        }
        lemma_resting_inserted(fewer, id, price, ts, order);
        let back = fewer.inserted(id, price, ts, order);
        lemma_inserted_inv(fewer, id, price, ts, order);
        assert(back.orders =~= r.orders.remove(top.id));
        assert forall|x: OrderIndex|
            back.live().count(x) == r.live().filter(keeps_other(top.id)).count(x) by {}
        assert(back.live() =~= r.live().filter(keeps_other(top.id)));
        lemma_resting_same(r.popped(), back);
    }
}

/// No quantity is made or lost by a new order. What rested on the opposite
/// side before is what rests there afterwards and what the order traded, so
/// that it trades no more than rested there. A market order leaves its own
/// side as it was; a limit order adds to its own side what it did not trade,
/// where it comes to rest under a free id.
pub proof fn lemma_quantity_is_conserved<Asset>(
    book: BookView<Asset>,
    id: u64,
    order_asset: Asset,
    price_asset: Asset,
    side: OrderSide,
    price: u64,
    qty: u64,
    ts: u64,
    now: u64,
)
    requires
        book.inv(),
        qty > 0,
        price > 0,
    ensures
        ({
            let after = book.after_market(id, side, qty, now);
            &&& resting_qty(after.book.queue(side.opposite())) + filled_qty(after.events, id, side)
                == resting_qty(book.queue(side.opposite()))
            &&& after.book.queue(side) == book.queue(side)
        }),
        ({
            let after = book.after_limit(id, order_asset, price_asset, side, price, qty, ts, now);
            &&& resting_qty(after.book.queue(side.opposite())) + filled_qty(after.events, id, side)
                == resting_qty(book.queue(side.opposite()))
            &&& !book.queue(side).orders.contains_key(id) && !book.queue(side).indexed(id)
                ==> resting_qty(after.book.queue(side)) + filled_qty(after.events, id, side)
                == resting_qty(book.queue(side)) + qty
        }),
{
    let opp = book.queue(side.opposite());
    let own = book.queue(side);
    let mm = matched(opp, id, side, None, qty, now);
    lemma_matched(opp, id, side, None, qty, now);
    lemma_matched_conserves(opp, id, side, None, qty, now);
    let tail = seq![Err::<Success, Failed>(Failed::NoMatch(id))];
    if mm.unfilled.is_some() {
        lemma_filled_qty_concat(mm.events, tail, id, side);
        lemma_filled_qty_one(tail[0], id, side);
        assert(book.after_market(id, side, qty, now).events =~= mm.events + tail);
    }
    let m = matched(opp, id, side, Some(price), qty, now);
    lemma_matched(opp, id, side, Some(price), qty, now);
    lemma_matched_conserves(opp, id, side, Some(price), qty, now);
    let traded = book.with_queue(side.opposite(), m.opposite);
    assert(traded.queue(side) == own);
    let after = book.after_limit(id, order_asset, price_asset, side, price, qty, ts, now);
    match m.unfilled {
        Some(rest) => {
            let order = Order { order_id: id, order_asset, price_asset, side, price, qty: rest };
            let s = traded.stored(id, order_asset, price_asset, side, price, rest, ts);
            lemma_filled_qty_concat(m.events, s.events, id, side);
            if own.orders.contains_key(id) {
                lemma_filled_qty_one(s.events[0], id, side);
            } else if !own.indexed(id) {
                lemma_resting_inserted(own, id, price, ts, order);
            }
        },
        None => {},
    }
}

/// No live bid is priced at or above a live ask.
pub open spec fn non_crossing<Asset>(
    bids: QueueView<Order<Asset>>,
    asks: QueueView<Order<Asset>>,
) -> bool {
    forall|b: OrderIndex, a: OrderIndex|
        (#[trigger] bids.live().contains(b)) && (#[trigger] asks.live().contains(a)) ==> b.price
            < a.price
}

impl<Asset> BookView<Asset> {
    /// What holds of a book at rest: each queue stands for its side; every
    /// live order has a positive quantity and exactly one index entry, which
    /// carries its id and price; no id occurs twice among the entries of a
    /// side; no bid is priced at or above an ask; and the next id lies in the
    /// book's range.
    pub open spec fn inv(self) -> bool {
        &&& self.bids.side == OrderSide::Bid
        &&& self.asks.side == OrderSide::Ask
        &&& queue_inv(self.bids)
        &&& queue_inv(self.asks)
        &&& non_crossing(self.bids, self.asks)
        &&& MIN_SEQUENCE_ID <= self.next_id <= MAX_SEQUENCE_ID
    }

    /// The id about to be handed out is free on the side where `request`,
    /// once `checked` has let it pass, would leave an order: no entry of an
    /// order long gone carries it.
    pub open spec fn admits(
        self,
        request: OrderRequest<Asset>,
        checked: Result<(), ValidationError>,
    ) -> bool {
        match request {
            OrderRequest::NewLimitOrder { side, price, qty, .. } => {
                let own = self.queue(side);
                let m = matched(
                    self.queue(side.opposite()),
                    self.next_id,
                    side,
                    Some(price),
                    qty,
                    0,
                );
                checked.is_ok() && m.unfilled.is_some() && !own.orders.contains_key(self.next_id)
                    ==> !own.indexed(self.next_id)
            },
            _ => true,
        }
    }
}

/// The time that the reports carry decides nothing: neither what is left of
/// the incoming order nor what is left in the opposite queue.
pub proof fn lemma_matched_timeless<Asset>(
    q: QueueView<Order<Asset>>,
    id: u64,
    side: OrderSide,
    limit: Option<u64>,
    qty: u64,
    now: u64,
    then: u64,
)
    ensures
        matched(q, id, side, limit, qty, now).unfilled == matched(
            q,
            id,
            side,
            limit,
            qty,
            then,
        ).unfilled,
        matched(q, id, side, limit, qty, now).opposite == matched(
            q,
            id,
            side,
            limit,
            qty,
            then,
        ).opposite,
    decreases q.entries.len(),
{
    match q.best_order() {
        None => {},
        Some(resting) => {
            if crosses(side, limit, resting.price) && qty > resting.qty {
                lemma_popped(q);
                lemma_matched_timeless(
                    q.pruned().popped(),
                    id,
                    side,
                    limit,
                    (qty - resting.qty) as u64,
                    now,
                    then,
                );
            }
        },
    }
}

/// Taking live orders away from either side leaves a book uncrossed.
pub proof fn lemma_non_crossing_shrinks<Asset>(
    bids: QueueView<Order<Asset>>,
    asks: QueueView<Order<Asset>>,
    fewer_bids: QueueView<Order<Asset>>,
    fewer_asks: QueueView<Order<Asset>>,
)
    requires
        non_crossing(bids, asks),
        fewer_bids.live().subset_of(bids.live()),
        fewer_asks.live().subset_of(asks.live()),
    ensures
        non_crossing(fewer_bids, fewer_asks),
{
    assert forall|b: OrderIndex, a: OrderIndex|
        (#[trigger] fewer_bids.live().contains(b)) && (#[trigger] fewer_asks.live().contains(
            a,
        )) implies b.price < a.price by {
        assert(fewer_bids.live().count(b) <= bids.live().count(b));
        assert(fewer_asks.live().count(a) <= asks.live().count(a));
        assert(bids.live().contains(b) && asks.live().contains(a));
    }
}

/// A book stays uncrossed when the queue of one side changes so that each of
/// its live entries was live before or is priced clear of the other side.
pub proof fn lemma_non_crossing_with<Asset>(
    book: BookView<Asset>,
    side: OrderSide,
    own: QueueView<Order<Asset>>,
    price: u64,
)
    requires
        non_crossing(book.bids, book.asks),
        clear_of(book.queue(side.opposite()), side, price),
        forall|x: OrderIndex| #[trigger]
            own.live().contains(x) ==> book.queue(side).live().contains(x) || x.price == price,
    ensures
        non_crossing(book.with_queue(side, own).bids, book.with_queue(side, own).asks),
{
    let after = book.with_queue(side, own);
    assert forall|b: OrderIndex, a: OrderIndex|
        (#[trigger] after.bids.live().contains(b)) && (#[trigger] after.asks.live().contains(
            a,
        )) implies b.price < a.price by {
        match side {
            OrderSide::Bid => {
                if !book.bids.live().contains(b) {
                    assert(b.price == price);
                }
            },
            OrderSide::Ask => {
                if !book.asks.live().contains(a) {
                    assert(a.price == price);
                }
            },
        }
    }
}

/// A market order leaves the book in order and trades no more than its
/// quantity; it trades all of it exactly where no `NoMatch` is reported.
pub proof fn lemma_after_market<Asset>(
    book: BookView<Asset>,
    id: u64,
    side: OrderSide,
    qty: u64,
    now: u64,
)
    requires
        book.inv(),
        qty > 0,
    ensures
        book.after_market(id, side, qty, now).book.inv(),
        book.after_market(id, side, qty, now).book.next_id == book.next_id,
        filled_qty(book.after_market(id, side, qty, now).events, id, side) <= qty,
        filled_qty(book.after_market(id, side, qty, now).events, id, side) == qty
            <==> book.after_market(id, side, qty, now).events.last() != Err::<Success, Failed>(
            Failed::NoMatch(id),
        ),
        book.after_market(id, side, qty, now).events.len() > 0,
        forall|i: int|
            0 <= i < book.after_market(id, side, qty, now).events.len() ==> !(
            #[trigger] book.after_market(id, side, qty, now).events[i] is Ok
                && book.after_market(id, side, qty, now).events[i]->Ok_0 is Accepted),
{
    let opp = book.queue(side.opposite());
    let m = matched(opp, id, side, None, qty, now);
    lemma_matched(opp, id, side, None, qty, now);
    let after = book.after_market(id, side, qty, now);
    match side {
        OrderSide::Bid => lemma_non_crossing_shrinks(book.bids, book.asks, book.bids, m.opposite),
        OrderSide::Ask => lemma_non_crossing_shrinks(book.bids, book.asks, m.opposite, book.asks),
    }
    let tail = seq![Err::<Success, Failed>(Failed::NoMatch(id))];
    if m.unfilled.is_some() {
        assert(after.events =~= m.events + tail);
        lemma_filled_qty_concat(m.events, tail, id, side);
        lemma_filled_qty_one(tail[0], id, side);
    } else {
        if m.events.len() > 0 {
            lemma_trades_are_fills(m.events, id, side, OrderType::Market, m.events.len() - 1);
        }
        assert(m.events.len() > 0) by {
            if m.events.len() == 0 {
                assert(filled_qty(m.events, id, side) == 0);
            }
        }
    }
    assert forall|i: int| 0 <= i < after.events.len() implies !(#[trigger] after.events[i] is Ok
        && after.events[i]->Ok_0 is Accepted) by {
        if i < m.events.len() {
            lemma_trades_are_fills(m.events, id, side, OrderType::Market, i);
        }
    }
}

/// A limit order leaves the book in order, provided its id is free where it
/// comes to rest, and trades no more than its quantity; it trades all of it
/// exactly where matching leaves nothing of it.
pub proof fn lemma_after_limit<Asset>(
    book: BookView<Asset>,
    id: u64,
    order_asset: Asset,
    price_asset: Asset,
    side: OrderSide,
    price: u64,
    qty: u64,
    ts: u64,
    now: u64,
)
    requires
        book.inv(),
        price > 0,
        qty > 0,
        matched(book.queue(side.opposite()), id, side, Some(price), qty, now).unfilled.is_some()
            && !book.queue(side).orders.contains_key(id) ==> !book.queue(side).indexed(id),
    ensures
        book.after_limit(id, order_asset, price_asset, side, price, qty, ts, now).book.inv(),
        book.after_limit(id, order_asset, price_asset, side, price, qty, ts, now).book.next_id
            == book.next_id,
        filled_qty(
            book.after_limit(id, order_asset, price_asset, side, price, qty, ts, now).events,
            id,
            side,
        ) <= qty,
        filled_qty(
            book.after_limit(id, order_asset, price_asset, side, price, qty, ts, now).events,
            id,
            side,
        ) == qty <==> matched(
            book.queue(side.opposite()),
            id,
            side,
            Some(price),
            qty,
            now,
        ).unfilled.is_none(),
        forall|i: int|
            0 <= i < book.after_limit(
                id,
                order_asset,
                price_asset,
                side,
                price,
                qty,
                ts,
                now,
            ).events.len() ==> !(#[trigger] book.after_limit(
                id,
                order_asset,
                price_asset,
                side,
                price,
                qty,
                ts,
                now,
            ).events[i] is Ok && book.after_limit(
                id,
                order_asset,
                price_asset,
                side,
                price,
                qty,
                ts,
                now,
            ).events[i]->Ok_0 is Accepted),
{
    let opp = book.queue(side.opposite());
    let own = book.queue(side);
    let m = matched(opp, id, side, Some(price), qty, now);
    lemma_matched(opp, id, side, Some(price), qty, now);
    let traded = book.with_queue(side.opposite(), m.opposite);
    let after = book.after_limit(id, order_asset, price_asset, side, price, qty, ts, now);
    match side {
        OrderSide::Bid => lemma_non_crossing_shrinks(book.bids, book.asks, book.bids, m.opposite),
        OrderSide::Ask => lemma_non_crossing_shrinks(book.bids, book.asks, m.opposite, book.asks),
    }
    assert(traded.inv());
    match m.unfilled {
        Some(rest) => {
            let order = Order { order_id: id, order_asset, price_asset, side, price, qty: rest };
            let s = traded.stored(id, order_asset, price_asset, side, price, rest, ts);
            assert(traded.queue(side) == own);
            lemma_inserted_inv(own, id, price, ts, order);
            let rested = own.inserted(id, price, ts, order);
            assert forall|x: OrderIndex| #[trigger] rested.live().contains(x) implies own.live().contains(
                x,
            ) || x.price == price by {}
            lemma_non_crossing_with(traded, side, rested, price);
            assert(after.events == m.events + s.events);
            lemma_filled_qty_concat(m.events, s.events, id, side);
            if own.orders.contains_key(id) {
                lemma_filled_qty_one(s.events[0], id, side);
            }
            assert forall|i: int| 0 <= i < after.events.len() implies !(
            #[trigger] after.events[i] is Ok && after.events[i]->Ok_0 is Accepted) by {
                if i < m.events.len() {
                    lemma_trades_are_fills(m.events, id, side, OrderType::Limit, i);
                }
            }
        },
        None => {
            assert forall|i: int| 0 <= i < after.events.len() implies !(
            #[trigger] after.events[i] is Ok && after.events[i]->Ok_0 is Accepted) by {
                lemma_trades_are_fills(m.events, id, side, OrderType::Limit, i);
            }
        },
    }
}

/// An amendment leaves the book in order.
pub proof fn lemma_after_amend<Asset>(
    book: BookView<Asset>,
    id: u64,
    side: OrderSide,
    price: u64,
    qty: u64,
    ts: u64,
    now: u64,
)
    requires
        book.inv(),
        price > 0,
        qty > 0,
    ensures
        book.after_amend(id, side, price, qty, ts, now).book.inv(),
        book.after_amend(id, side, price, qty, ts, now).book.next_id == book.next_id,
        book.after_amend(id, side, price, qty, ts, now).events.len() == 1,
        !(book.after_amend(id, side, price, qty, ts, now).events[0] is Ok && book.after_amend(
            id,
            side,
            price,
            qty,
            ts,
            now,
        ).events[0]->Ok_0 is Accepted),
{
    let own = book.queue(side);
    let opp = book.queue(side.opposite());
    if own.orders.contains_key(id) {
        let seen = book.peeked(side);
        lemma_pruned_inv(opp);
        match side {
            OrderSide::Bid => lemma_non_crossing_shrinks(
                book.bids,
                book.asks,
                book.bids,
                opp.pruned(),
            ),
            OrderSide::Ask => lemma_non_crossing_shrinks(
                book.bids,
                book.asks,
                opp.pruned(),
                book.asks,
            ),
        }
        assert(seen.inv());
        let blocked = match opp.best_order() {
            Some(resting) => crosses(side, Some(price), resting.price),
            None => false,
        };
        if !blocked {
            let order = Order {
                order_id: id,
                order_asset: book.order_asset,
                price_asset: book.price_asset,
                side,
                price,
                qty,
            };
            lemma_amended_inv(own, id, price, ts, order);
            lemma_clear_of_best(opp, side, price);
            assert(clear_of(opp.pruned(), side, price));
            let moved = own.amended(id, price, ts, order);
            assert(seen.queue(side) == own);
            assert forall|x: OrderIndex| #[trigger] moved.live().contains(x) implies own.live().contains(
                x,
            ) || x.price == price by {
                broadcast use vstd::multiset::group_multiset_axioms;

            }
            lemma_non_crossing_with(seen, side, moved, price);
        }
    }
}

/// A cancellation leaves the book in order.
pub proof fn lemma_after_cancel<Asset>(book: BookView<Asset>, id: u64, side: OrderSide, now: u64)
    requires
        book.inv(),
    ensures
        book.after_cancel(id, side, now).book.inv(),
        book.after_cancel(id, side, now).book.next_id == book.next_id,
        book.after_cancel(id, side, now).events.len() == 1,
        !(book.after_cancel(id, side, now).events[0] is Ok && book.after_cancel(
            id,
            side,
            now,
        ).events[0]->Ok_0 is Accepted),
{
    broadcast use vstd::multiset::group_multiset_axioms;

    let own = book.queue(side);
    lemma_cancelled_inv(own, id);
    let fewer = own.cancelled(id);
    assert(fewer.live().subset_of(own.live()));
    match side {
        OrderSide::Bid => lemma_non_crossing_shrinks(book.bids, book.asks, fewer, book.asks),
        OrderSide::Ask => lemma_non_crossing_shrinks(book.bids, book.asks, book.bids, fewer),
    }
}

/// The quantity of a request for a new order, and the side it is for.
pub open spec fn incoming<Asset>(request: OrderRequest<Asset>) -> Option<(OrderSide, u64)> {
    match request {
        OrderRequest::NewMarketOrder { side, qty, .. } => Some((side, qty)),
        OrderRequest::NewLimitOrder { side, qty, .. } => Some((side, qty)),
        _ => None,
    }
}

/// Whatever the request and whatever the comparison of its assets answered,
/// a book in order is in order after it, provided the book admits the
/// request. Every id that is reported as accepted is the one the book was
/// about to hand out and lies in the book's range, and the reports credit a
/// new order with no more than its quantity.
pub proof fn lemma_settled<Asset>(
    book: BookView<Asset>,
    request: OrderRequest<Asset>,
    order_asset_fits: bool,
    price_asset_fits: bool,
    now: u64,
)
    requires
        book.inv(),
        book.admits(
            request,
            book.rules().verdict_with(request, order_asset_fits, price_asset_fits),
        ),
    ensures
        ({
            let checked = book.rules().verdict_with(request, order_asset_fits, price_asset_fits);
            let done = book.settled(request, checked, now);
            &&& done.book.inv()
            &&& forall|i: int|
                0 <= i < done.events.len() ==> match (#[trigger] done.events[i]) {
                    Ok(Success::Accepted { id, .. }) => id == book.next_id && MIN_SEQUENCE_ID <= id
                        <= MAX_SEQUENCE_ID && i == 0,
                    _ => true,
                }
            &&& match incoming(request) {
                Some((side, qty)) => filled_qty(done.events, book.next_id, side) <= qty,
                None => true,
            }
        }),
{
    let checked = book.rules().verdict_with(request, order_asset_fits, price_asset_fits);
    let done = book.settled(request, checked, now);
    if checked.is_ok() {
        let id = book.next_id;
        let minted = book.minted();
        match request {
            OrderRequest::NewMarketOrder { side, qty, .. } => {
                let inner = minted.after_market(id, side, qty, now);
                lemma_after_market(minted, id, side, qty, now);
                let head = seq![
                    Ok::<Success, Failed>(
                        Success::Accepted { id, order_type: OrderType::Market, ts: now },
                    ),
                ];
                assert(done.events == head + inner.events);
                lemma_filled_qty_concat(head, inner.events, id, side);
                lemma_filled_qty_one(head[0], id, side);
                assert forall|i: int| 0 <= i < done.events.len() implies match (
                #[trigger] done.events[i]) {
                    Ok(Success::Accepted { id: got, .. }) => got == book.next_id && MIN_SEQUENCE_ID
                        <= got <= MAX_SEQUENCE_ID && i == 0,
                    _ => true,
                } by {
                    if i > 0 {
                        assert(done.events[i] == inner.events[i - 1]);
                    }
                }
            },
            OrderRequest::NewLimitOrder { order_asset, price_asset, side, price, qty, ts } => {
                let inner = minted.after_limit(
                    id,
                    order_asset,
                    price_asset,
                    side,
                    price,
                    qty,
                    ts,
                    now,
                );
                assert(minted.queue(side) == book.queue(side));
                assert(minted.queue(side.opposite()) == book.queue(side.opposite()));
                lemma_matched_timeless(
                    book.queue(side.opposite()),
                    id,
                    side,
                    Some(price),
                    qty,
                    now,
                    0,
                );
                lemma_after_limit(minted, id, order_asset, price_asset, side, price, qty, ts, now);
                let head = seq![
                    Ok::<Success, Failed>(
                        Success::Accepted { id, order_type: OrderType::Limit, ts: now },
                    ),
                ];
                assert(done.events == head + inner.events);
                lemma_filled_qty_concat(head, inner.events, id, side);
                lemma_filled_qty_one(head[0], id, side);
                assert forall|i: int| 0 <= i < done.events.len() implies match (
                #[trigger] done.events[i]) {
                    Ok(Success::Accepted { id: got, .. }) => got == book.next_id && MIN_SEQUENCE_ID
                        <= got <= MAX_SEQUENCE_ID && i == 0,
                    _ => true,
                } by {
                    if i > 0 {
                        assert(done.events[i] == inner.events[i - 1]);
                    }
                }
            },
            OrderRequest::AmendOrder { id, side, price, qty, ts } => {
                lemma_after_amend(book, id, side, price, qty, ts, now);
            },
            OrderRequest::CancelOrder { id, side } => {
                lemma_after_cancel(book, id, side, now);
            },
        }
    } else {
        match incoming(request) {
            Some((side, qty)) => {
                lemma_filled_qty_one(done.events[0], book.next_id, side);
            },
            None => {},
        }
    }
}

/// Whatever the request, a book in order that admits it is in order after it
/// is processed, accepts it under an id of the book's range, and credits a
/// new order with no more than its quantity.
pub proof fn lemma_processed<Asset: PartialEq>(
    book: BookView<Asset>,
    request: OrderRequest<Asset>,
    now: u64,
)
    requires
        book.inv(),
        book.admits(request, book.rules().verdict(request)),
    ensures
        book.processed(request, now).book.inv(),
        forall|i: int|
            0 <= i < book.processed(request, now).events.len() ==> match (
            #[trigger] book.processed(request, now).events[i]) {
                Ok(Success::Accepted { id, .. }) => id == book.next_id && MIN_SEQUENCE_ID <= id
                    <= MAX_SEQUENCE_ID && i == 0,
                _ => true,
            },
        match incoming(request) {
            Some((side, qty)) => filled_qty(
                book.processed(request, now).events,
                book.next_id,
                side,
            ) <= qty,
            None => true,
        },
{
    match request {
        OrderRequest::NewMarketOrder { order_asset, price_asset, .. } => lemma_settled(
            book,
            request,
            book.order_asset.eq_spec(&order_asset),
            book.price_asset.eq_spec(&price_asset),
            now,
        ),
        OrderRequest::NewLimitOrder { order_asset, price_asset, .. } => lemma_settled(
            book,
            request,
            book.order_asset.eq_spec(&order_asset),
            book.price_asset.eq_spec(&price_asset),
            now,
        ),
        _ => lemma_settled(book, request, true, true, now),
    }
}

/// The book after a run of requests, each handled at the time given with it.
pub open spec fn replayed<Asset: PartialEq>(
    book: BookView<Asset>,
    requests: Seq<(OrderRequest<Asset>, u64)>,
) -> BookView<Asset>
    decreases requests.len(),
{
    if requests.len() == 0 {
        book
    } else {
        replayed(book, requests.drop_last()).processed(
            requests.last().0,
            requests.last().1,
        ).book
    }
}

/// The book admits each request of the run when its turn comes.
pub open spec fn admits_all<Asset: PartialEq>(
    book: BookView<Asset>,
    requests: Seq<(OrderRequest<Asset>, u64)>,
) -> bool
    decreases requests.len(),
{
    requests.len() == 0 || (admits_all(book, requests.drop_last()) && replayed(
        book,
        requests.drop_last(),
    ).admits(
        requests.last().0,
        replayed(book, requests.drop_last()).rules().verdict(requests.last().0),
    ))
}

/// A book in order is in order after any run of requests that it admits.
pub proof fn lemma_replayed<Asset: PartialEq>(
    book: BookView<Asset>,
    requests: Seq<(OrderRequest<Asset>, u64)>,
)
    requires
        book.inv(),
        admits_all(book, requests),
    ensures
        replayed(book, requests).inv(),
    decreases requests.len(),
{
    if requests.len() > 0 {
        lemma_replayed(book, requests.drop_last());
        lemma_processed(
            replayed(book, requests.drop_last()),
            requests.last().0,
            requests.last().1,
        );
    }
}

/// A book without orders is in order.
pub proof fn lemma_empty_book<Asset>(order_asset: Asset, price_asset: Asset)
    ensures
        (BookView {
            order_asset,
            price_asset,
            bids: QueueView {
                side: OrderSide::Bid,
                entries: vstd::multiset::Multiset::empty(),
                orders: Map::empty(),
                stale_ops: 0,
                max_stalled: MAX_STALLED_INDICES_IN_QUEUE,
            },
            asks: QueueView {
                side: OrderSide::Ask,
                entries: vstd::multiset::Multiset::empty(),
                orders: Map::empty(),
                stale_ops: 0,
                max_stalled: MAX_STALLED_INDICES_IN_QUEUE,
            },
            next_id: MIN_SEQUENCE_ID,
        }).inv(),
{
    broadcast use vstd::multiset::group_multiset_axioms;

}

/// In a book in order the best bid is priced below the best ask.
pub proof fn lemma_spread_is_open<Asset>(book: BookView<Asset>)
    requires
        book.inv(),
    ensures
        match book.spread() {
            Some((bid, ask)) => bid < ask,
            None => true,
        },
        book.after_spread().inv(),
{
    lemma_best_iff_live(book.bids);
    lemma_best_iff_live(book.asks);
    lemma_pruned_inv(book.bids);
    lemma_pruned_inv(book.asks);
    if book.bids.best().is_some() && book.asks.best().is_some() {
        let b = book.bids.best().unwrap();
        let a = book.asks.best().unwrap();
        assert(agrees(book.bids.orders[b.id], b, OrderSide::Bid));
        assert(agrees(book.asks.orders[a.id], a, OrderSide::Ask));
    }
    lemma_non_crossing_shrinks(book.bids, book.asks, book.bids.pruned(), book.asks.pruned());
    lemma_non_crossing_shrinks(book.bids, book.asks, book.bids.pruned(), book.asks);
}

/// A second cancellation of an id in range reports that no such order was
/// found and leaves the book as the first one left it.
pub proof fn lemma_second_cancel<Asset: PartialEq>(
    book: BookView<Asset>,
    id: u64,
    side: OrderSide,
    first: u64,
    second: u64,
)
    requires
        MIN_SEQUENCE_ID <= id <= MAX_SEQUENCE_ID,
    ensures
        ({
            let request = OrderRequest::<Asset>::CancelOrder { id, side };
            let once = book.processed(request, first).book;
            &&& once.processed(request, second).book == once
            &&& once.processed(request, second).events == seq![
                Err::<Success, Failed>(Failed::OrderNotFound(id)),
            ]
        }),
{
    lemma_cancel_twice(book.queue(side), id);
}

} // verus!
