use std::cmp::Ordering;
use std::collections::HashMap;
use vstd::multiset::Multiset;
use vstd::prelude::*;

pub use super::domain::OrderSide;
use super::index_heap::{
    best_of, is_best, lemma_best_exists, lemma_best_of_empty, lemma_best_unique,
    lemma_filter_len, lemma_filter_step, IndexHeap, OrderIndex,
};

verus! {

broadcast use vstd::std_specs::hash::group_hash_axioms;

/// Predicate that holds of the entries whose id has an order in `orders`.
pub open spec fn keeps_live<T>(orders: Map<u64, T>) -> spec_fn(OrderIndex) -> bool {
    |e: OrderIndex| orders.contains_key(e.id)
}

/// Predicate that holds of the entries whose id is not `id`.
pub open spec fn keeps_other(id: u64) -> spec_fn(OrderIndex) -> bool {
    |e: OrderIndex| e.id != id
}

/// Predicate that holds of the entries that are live in `orders` or come after
/// `b` on `side`.
pub open spec fn keeps_behind<T>(orders: Map<u64, T>, b: OrderIndex, side: OrderSide) -> spec_fn(
    OrderIndex,
) -> bool {
    |e: OrderIndex| orders.contains_key(e.id) || b.before(e, side)
}

/// What a queue of one side holds: the index entries, stale ones included, the
/// live orders by id, and the bookkeeping of the cleaning policy.
pub struct QueueView<T> {
    pub side: OrderSide,
    pub entries: Multiset<OrderIndex>,
    pub orders: Map<u64, T>,
    pub stale_ops: u64,
    pub max_stalled: u64,
}

impl<T> QueueView<T> {
    /// The entries whose order is still in the queue.
    pub open spec fn live(self) -> Multiset<OrderIndex> {
        self.entries.filter(keeps_live(self.orders))
    }

    /// The live entry with the highest priority.
    pub open spec fn best(self) -> Option<OrderIndex> {
        best_of(self.live(), self.side)
    }

    /// The order that stands first in price-time priority.
    pub open spec fn best_order(self) -> Option<T> {
        match self.best() {
            Some(b) => Some(self.orders[b.id]),
            None => None,
        }
    }

    /// The entry with the highest priority, whether live or stale.
    pub open spec fn top(self) -> Option<OrderIndex> {
        best_of(self.entries, self.side)
    }

    /// Some index entry carries `id`.
    pub open spec fn indexed(self, id: u64) -> bool {
        exists|e: OrderIndex| #[trigger] self.entries.contains(e) && e.id == id
    }

    /// Every live order has an index entry.
    pub open spec fn covered(self) -> bool {
        forall|id: u64| #[trigger] self.orders.contains_key(id) ==> self.indexed(id)
    }

    /// The queue once the stale entries ahead of the best live entry are
    /// dropped; all entries are dropped where none is live.
    pub open spec fn pruned(self) -> Self {
        QueueView {
            entries: match self.best() {
                Some(b) => self.entries.filter(keeps_behind(self.orders, b, self.side)),
                None => Multiset::empty(),
            },
            ..self
        }
    }

    /// The queue once the best live order and its entry are taken out.
    pub open spec fn popped(self) -> Self {
        match self.best() {
            Some(b) => QueueView {
                entries: self.pruned().entries.remove(b),
                orders: self.orders.remove(b.id),
                ..self
            },
            None => self.pruned(),
        }
    }

    /// The queue once `order` is added under `id`; unchanged where `id` is live.
    pub open spec fn inserted(self, id: u64, price: u64, ts: u64, order: T) -> Self {
        if self.orders.contains_key(id) {
            self
        } else {
            QueueView {
                entries: self.entries.insert(OrderIndex { id, price, timestamp: ts }),
                orders: self.orders.insert(id, order),
                ..self
            }
        }
    }

    /// The queue once the order under `id` is replaced and re-indexed;
    /// unchanged where `id` is not live.
    pub open spec fn amended(self, id: u64, price: u64, ts: u64, order: T) -> Self {
        if self.orders.contains_key(id) {
            QueueView {
                entries: self.entries.filter(keeps_other(id)).insert(
                    OrderIndex { id, price, timestamp: ts },
                ),
                orders: self.orders.insert(id, order),
                ..self
            }
        } else {
            self
        }
    }

    /// The queue with the stale entries dropped and the counter reset where
    /// the counter has passed the threshold, else with the counter advanced.
    pub open spec fn cleaned(self) -> Self {
        if self.stale_ops > self.max_stalled {
            QueueView { entries: self.live(), stale_ops: 0, ..self }
        } else {
            QueueView { stale_ops: (self.stale_ops + 1) as u64, ..self }
        }
    }

    /// The queue once the order under `id` is withdrawn; unchanged where `id`
    /// is not live.
    pub open spec fn cancelled(self, id: u64) -> Self {
        if self.orders.contains_key(id) {
            QueueView { orders: self.orders.remove(id), ..self }.cleaned()
        } else {
            self
        }
    }

    /// Whether the top entry is live, so that its order can be replaced.
    pub open spec fn top_is_live(self) -> bool {
        match self.top() {
            Some(t) => self.orders.contains_key(t.id),
            None => false,
        }
    }

    /// The queue once the order of the top entry is replaced by `order`;
    /// unchanged where the top entry is stale or missing.
    pub open spec fn modified(self, order: T) -> Self {
        if self.top_is_live() {
            QueueView { orders: self.orders.insert(self.top().unwrap().id, order), ..self }
        } else {
            self
        }
    }
}

/// Price-time priority queue of the resting orders of one side.
///
/// Orders live in a map by id; a heap of index entries gives their priority.
/// A cancelled order leaves its entry behind, which is skipped when it reaches
/// the top or dropped at the next cleaning.
///
/// Price-time priority says nothing of two orders at one price and timestamp.
/// The queue has a rule of its own for them: the order with the lower id
/// leaves first (`OrderIndex::lower_id_first`). The comparison
/// `OrderIndex::cmp` knows nothing of that rule; it is part of
/// `OrderIndex::before`, the order in which the heap hands out its entries.
pub struct OrderQueue<T> {
    idx_queue: IndexHeap,
    orders: HashMap<u64, T>,
    op_counter: u64,
    max_stalled: u64,
    queue_side: OrderSide,
}

impl<T> View for OrderQueue<T> {
    type V = QueueView<T>;

    closed spec fn view(&self) -> QueueView<T> {
        QueueView {
            side: self.queue_side,
            entries: self.idx_queue@,
            orders: self.orders@,
            stale_ops: self.op_counter,
            max_stalled: self.max_stalled,
        }
    }
}

impl<T> OrderQueue<T> {
    /// The heap is in order for the queue's side and the counter is in range.
    pub closed spec fn sound(&self) -> bool {
        &&& self.idx_queue.wf()
        &&& self.idx_queue.side() == self.queue_side
        &&& self.op_counter <= self.max_stalled + 1
        &&& self.max_stalled < u64::MAX
    }

    /// The queue is sound and every live order has an index entry.
    pub open spec fn wf(&self) -> bool {
        &&& self.sound()
        &&& self@.covered()
    }

    /// Create new order queue
    ///
    /// Queue is universal and could be used for both asks and bids
    pub fn new(side: OrderSide, max_stalled: u64, capacity: usize) -> (queue: Self)
        requires
            max_stalled < u64::MAX,
        ensures
            queue.wf(),
            queue@ == (QueueView::<T> {
                side,
                entries: Multiset::empty(),
                orders: Map::empty(),
                stale_ops: 0,
                max_stalled,
            }),
    {
        OrderQueue {
            idx_queue: IndexHeap::new(side, capacity),
            orders: HashMap::with_capacity(capacity),
            op_counter: 0,
            max_stalled,
            queue_side: side,
        }
    }

    /// Whether an order is resting under `id`.
    pub fn contains(&self, id: u64) -> (found: bool)
        ensures
            found == self@.orders.contains_key(id),
    {
        self.orders.contains_key(&id)
    }

    /// The order that stands first, after dropping the stale entries above it.
    pub fn peek(&mut self) -> (first: Option<&T>)
        requires
            old(self).wf(),
        ensures
            final(self).wf(),
            final(self)@ == old(self)@.pruned(),
            match first {
                Some(order) => old(self)@.best_order() == Some(*order),
                None => old(self)@.best_order().is_none(),
            },
    {
        loop
            invariant
                self.wf(),
                self@.orders == old(self)@.orders,
                self@.side == old(self)@.side,
                self@.stale_ops == old(self)@.stale_ops,
                self@.max_stalled == old(self)@.max_stalled,
                self@.live() == old(self)@.live(),
                self@.pruned().entries == old(self)@.pruned().entries,
            decreases self@.entries.len(),
        {
            let top: Option<OrderIndex> = self.idx_queue.peek();
            match top {
                None => {
                    proof {
                        lemma_no_entries(self@);
                    }
                    return None;
                },
                Some(entry) => {
                    if self.orders.contains_key(&entry.id) {
                        proof {
                            lemma_live_top(self@, entry);
                        }
                        return self.orders.get(&entry.id);
                    }
                    proof {
                        lemma_drop_stale_top(self@, entry);
                    }
                    self.idx_queue.pop();
                },
            }
        }
    }

    /// Takes out the order that stands first, with its entry and the stale
    /// entries above it.
    pub fn pop(&mut self) -> (first: Option<T>)
        requires
            old(self).wf(),
        ensures
            final(self).wf(),
            final(self)@ == old(self)@.popped(),
            first == old(self)@.best_order(),
    {
        loop
            invariant
                self.wf(),
                self@.orders == old(self)@.orders,
                self@.side == old(self)@.side,
                self@.stale_ops == old(self)@.stale_ops,
                self@.max_stalled == old(self)@.max_stalled,
                self@.live() == old(self)@.live(),
                self@.pruned().entries == old(self)@.pruned().entries,
            decreases self@.entries.len(),
        {
            let ghost before = self@;
            let top: Option<OrderIndex> = self.idx_queue.pop();
            match top {
                None => {
                    proof {
                        lemma_no_entries(self@);
                    }
                    return None;
                },
                Some(entry) => {
                    if self.orders.contains_key(&entry.id) {
                        proof {
                            lemma_live_top(before, entry);
                            lemma_remove_keeps_covered(before, entry);
                        }
                        return self.orders.remove(&entry.id);
                    }
                    proof {
                        lemma_drop_stale_top(before, entry);
                    }
                },
            }
        }
    }

    /// Adds `order` under `id` with the given priority, unless `id` is live.
    pub fn insert(&mut self, id: u64, price: u64, ts: u64, order: T) -> (added: bool)
        requires
            old(self).wf(),
        ensures
            final(self).wf(),
            added == !old(self)@.orders.contains_key(id),
            final(self)@ == old(self)@.inserted(id, price, ts, order),
    {
        if self.orders.contains_key(&id) {
            return false;
        }
        let entry = OrderIndex { id, price, timestamp: ts };
        self.idx_queue.push(entry);
        self.orders.insert(id, order);
        proof {
            let before = old(self)@;
            let after = self@;
            assert forall|k: u64| #[trigger] after.orders.contains_key(k) implies after.indexed(
                k,
            ) by {
                if k == id {
                    assert(after.entries.contains(entry));
                } else {
                    assert(before.indexed(k));
                    let e = choose|e: OrderIndex| #[trigger]
                        before.entries.contains(e) && e.id == k;
                    assert(after.entries.contains(e));
                }
            }
        }
        true
    }

    /// Replaces the order under `id` and gives it a new place in the priority
    /// order. Returns false, changing nothing, where `id` is not live.
    pub fn amend(&mut self, id: u64, price: u64, ts: u64, order: T) -> (amended: bool)
        requires
            old(self).wf(),
        ensures
            final(self).wf(),
            amended == old(self)@.orders.contains_key(id),
            final(self)@ == old(self)@.amended(id, price, ts, order),
    {
        if self.orders.contains_key(&id) {
            self.orders.insert(id, order);
            self.rebuild_idx(id, price, ts);
            proof {
                let before = old(self)@;
                let after = self@;
                let entry = OrderIndex { id, price, timestamp: ts };
                assert(after.orders.dom() =~= before.orders.dom());
                assert forall|k: u64| #[trigger]
                    after.orders.contains_key(k) implies after.indexed(k) by {
                    if k == id {
                        assert(after.entries.contains(entry));
                    } else {
                        assert(before.orders.contains_key(k));
                        assert(before.indexed(k));
                        let e = choose|e: OrderIndex| #[trigger]
                            before.entries.contains(e) && e.id == k;
                        assert(keeps_other(id)(e));
                        assert(before.entries.filter(keeps_other(id)).contains(e));
                        assert(after.entries.contains(e));
                    }
                }
            }
            true
        } else {
            false
        }
    }

    /// Withdraws the order under `id`, leaving its entry to the cleaning
    /// policy. Returns whether the order was live.
    pub fn cancel(&mut self, id: u64) -> (cancelled: bool)
        requires
            old(self).wf(),
        ensures
            final(self).wf(),
            cancelled == old(self)@.orders.contains_key(id),
            final(self)@ == old(self)@.cancelled(id),
    {
        match self.orders.remove(&id) {
            Some(_) => {
                proof {
                    lemma_covered_by_entries(old(self)@, self@);
                }
                self.clean_check();
                true
            },
            None => {
                assert(self@.orders =~= old(self)@.orders);
                false
            },
        }
    }

    /// Used internally when current order is partially matched.
    ///
    /// Note: do not modify price or time, cause index doesn't change!
    pub fn modify_current_order(&mut self, new_order: T) -> (modified: bool)
        requires
            old(self).wf(),
        ensures
            final(self).wf(),
            modified == old(self)@.top_is_live(),
            final(self)@ == old(self)@.modified(new_order),
    {
        if let Some(order_id) = self.get_current_order_id() {
            if self.orders.contains_key(&order_id) {
                self.orders.insert(order_id, new_order);
                proof {
                    assert(self@.orders.dom() =~= old(self)@.orders.dom());
                    lemma_covered_by_entries(old(self)@, self@);
                }
                return true;
            }
        }
        false
    }

    /// Verify if queue should be cleaned
    fn clean_check(&mut self)
        requires
            old(self).wf(),
        ensures
            final(self).wf(),
            final(self)@ == old(self)@.cleaned(),
    {
        if self.op_counter > self.max_stalled {
            self.op_counter = 0;
            proof {
                lemma_covered_by_entries(old(self)@, self@);
            }
            self.remove_stalled();
        } else {
            self.op_counter += 1;
            proof {
                lemma_covered_by_entries(old(self)@, self@);
            }
        }
    }

    /// Remove dangling indices without orders from queue
    fn remove_stalled(&mut self)
        requires
            old(self).wf(),
        ensures
            final(self).wf(),
            final(self)@ == (QueueView { entries: old(self)@.live(), ..old(self)@ }),
    {
        let active_orders: Vec<OrderIndex> = self.idx_queue.take_entries();
        let ghost keep = keeps_live(self.orders@);
        let mut i: usize = 0;
        proof {
            lemma_empty_prefix(active_orders@, keep);
        }
        while i < active_orders.len()
            invariant
                i <= active_orders.len(),
                self.sound(),
                self.orders@ == old(self).orders@,
                self.op_counter == old(self).op_counter,
                self.max_stalled == old(self).max_stalled,
                self.queue_side == old(self).queue_side,
                keep == keeps_live(self.orders@),
                active_orders@.to_multiset() == old(self).idx_queue@,
                self.idx_queue@ == active_orders@.subrange(0, i as int).to_multiset().filter(keep),
            decreases active_orders.len() - i,
        {
            let order_ptr: OrderIndex = active_orders[i];
            proof {
                lemma_filter_step(active_orders@, i as int, keep);
            }
            if self.orders.contains_key(&order_ptr.id) {
                self.idx_queue.push(order_ptr);
            }
            i += 1;
        }
        proof {
            assert(active_orders@.subrange(0, i as int) =~= active_orders@);
            let before = old(self)@;
            let after = self@;
            assert forall|k: u64| #[trigger] after.orders.contains_key(k) implies after.indexed(
                k,
            ) by {
                assert(before.indexed(k));
                let e = choose|e: OrderIndex| #[trigger] before.entries.contains(e) && e.id == k;
                assert(keep(e));
                assert(after.entries.contains(e));
            }
        }
    }

    /// Recreate order-index queue with changed index info
    fn rebuild_idx(&mut self, id: u64, price: u64, ts: u64)
        requires
            old(self).sound(),
        ensures
            final(self).sound(),
            final(self)@ == (QueueView {
                entries: old(self)@.entries.filter(keeps_other(id)).insert(
                    OrderIndex { id, price, timestamp: ts },
                ),
                ..old(self)@
            }),
    {
        let active_orders: Vec<OrderIndex> = self.idx_queue.take_entries();
        let ghost keep = keeps_other(id);
        let mut i: usize = 0;
        proof {
            lemma_empty_prefix(active_orders@, keep);
        }
        while i < active_orders.len()
            invariant
                i <= active_orders.len(),
                self.sound(),
                self.orders@ == old(self).orders@,
                self.op_counter == old(self).op_counter,
                self.max_stalled == old(self).max_stalled,
                self.queue_side == old(self).queue_side,
                keep == keeps_other(id),
                active_orders@.to_multiset() == old(self).idx_queue@,
                self.idx_queue@ == active_orders@.subrange(0, i as int).to_multiset().filter(keep),
            decreases active_orders.len() - i,
        {
            let order_ptr: OrderIndex = active_orders[i];
            proof {
                lemma_filter_step(active_orders@, i as int, keep);
            }
            if order_ptr.id != id {
                self.idx_queue.push(order_ptr);
            }
            i += 1;
        }
        proof {
            assert(active_orders@.subrange(0, i as int) =~= active_orders@);
        }
        self.idx_queue.push(OrderIndex { id, price, timestamp: ts });
    }

    /// Return ID of current order in queue
    fn get_current_order_id(&self) -> (id: Option<u64>)
        requires
            self.sound(),
        ensures
            id == (match self@.top() {
                Some(t) => Some(t.id),
                None => None,
            }),
    {
        match self.idx_queue.peek() {
            Some(entry) => Some(entry.id),
            None => None,
        }
    }
}

/// A queue with the entries of a covered queue and no further orders is
/// covered.
pub proof fn lemma_covered_by_entries<T>(a: QueueView<T>, b: QueueView<T>)
    requires
        a.covered(),
        a.entries == b.entries,
        b.orders.dom().subset_of(a.orders.dom()),
    ensures
        b.covered(),
{
    assert forall|k: u64| #[trigger] b.orders.contains_key(k) implies b.indexed(k) by {
        assert(a.orders.contains_key(k));
        assert(a.indexed(k));
        let e = choose|e: OrderIndex| #[trigger] a.entries.contains(e) && e.id == k;
        assert(b.entries.contains(e));
    }
}

/// The empty prefix of a sequence keeps nothing.
pub proof fn lemma_empty_prefix(s: Seq<OrderIndex>, keep: spec_fn(OrderIndex) -> bool)
    ensures
        s.subrange(0, 0).to_multiset().filter(keep) == Multiset::<OrderIndex>::empty(),
{
    broadcast use vstd::seq_lib::group_to_multiset_ensures;
    broadcast use vstd::multiset::group_multiset_axioms;

    let m = s.subrange(0, 0).to_multiset();
    vstd::multiset::lemma_multiset_empty_len(m);
    assert(m.filter(keep) =~= Multiset::<OrderIndex>::empty());
}

/// A queue without entries has no best order and is its own pruning.
pub proof fn lemma_no_entries<T>(q: QueueView<T>)
    requires
        q.entries.len() == 0,
    ensures
        q.best().is_none(),
        q.pruned().entries == q.entries,
{
    broadcast use vstd::multiset::group_multiset_axioms;

    vstd::multiset::lemma_multiset_empty_len(q.entries);
    assert(q.live() =~= Multiset::<OrderIndex>::empty());
    lemma_best_of_empty(q.live(), q.side);
    assert(q.entries =~= Multiset::<OrderIndex>::empty());
}

/// Where the top entry is live it is the best live entry, and pruning changes
/// nothing.
pub proof fn lemma_live_top<T>(q: QueueView<T>, t: OrderIndex)
    requires
        q.top() == Some(t),
        is_best(q.entries, q.side, t),
        q.orders.contains_key(t.id),
    ensures
        q.best() == Some(t),
        q.pruned().entries == q.entries,
{
    broadcast use vstd::multiset::group_multiset_axioms;

    assert(keeps_live(q.orders)(t));
    assert(q.live().contains(t));
    assert forall|x: OrderIndex| #[trigger] q.live().contains(x) implies !x.before(t, q.side) by {
        assert(q.entries.contains(x));
    }
    lemma_best_unique(q.live(), q.side, t);
    let keep = keeps_behind(q.orders, t, q.side);
    assert forall|x: OrderIndex| q.entries.filter(keep).count(x) == q.entries.count(x) by {
        if q.entries.contains(x) {
            assert(!x.before(t, q.side));
            assert(keep(x));
        }
    }
    assert(q.entries.filter(keep) =~= q.entries);
}

/// Dropping a stale top entry changes neither the live entries nor the
/// pruned queue, and keeps every live order indexed.
pub proof fn lemma_drop_stale_top<T>(q: QueueView<T>, t: OrderIndex)
    requires
        is_best(q.entries, q.side, t),
        !q.orders.contains_key(t.id),
    ensures
        (QueueView { entries: q.entries.remove(t), ..q }).live() == q.live(),
        (QueueView { entries: q.entries.remove(t), ..q }).pruned().entries == q.pruned().entries,
        q.covered() ==> (QueueView { entries: q.entries.remove(t), ..q }).covered(),
        q.entries.remove(t).len() < q.entries.len(),
{
    broadcast use vstd::multiset::group_multiset_axioms;

    let r = QueueView { entries: q.entries.remove(t), ..q };
    assert(!keeps_live(q.orders)(t));
    assert(r.live() =~= q.live());
    match q.best() {
        Some(b) => {
            let keep = keeps_behind(q.orders, b, q.side);
            if exists|e: OrderIndex| is_best(q.live(), q.side, e) {
            }
            assert(is_best(q.live(), q.side, b));
            assert(q.live().contains(b));
            assert(q.entries.contains(b));
            assert(!b.before(t, q.side));
            assert(!keep(t));
            assert(r.entries.filter(keep) =~= q.entries.filter(keep));
        },
        None => {},
    }
    if q.covered() {
        assert forall|k: u64| #[trigger] r.orders.contains_key(k) implies r.indexed(k) by {
            assert(q.indexed(k));
            let e = choose|e: OrderIndex| #[trigger] q.entries.contains(e) && e.id == k;
            assert(e != t);
            assert(r.entries.contains(e));
        }
    }
}

/// Taking out a live top entry and its order keeps every other live order
/// indexed.
pub proof fn lemma_remove_keeps_covered<T>(q: QueueView<T>, t: OrderIndex)
    requires
        q.covered(),
        q.entries.contains(t),
    ensures
        (QueueView { entries: q.entries.remove(t), orders: q.orders.remove(t.id), ..q }).covered(),
{
    broadcast use vstd::multiset::group_multiset_axioms;

    let r = QueueView { entries: q.entries.remove(t), orders: q.orders.remove(t.id), ..q };
    assert forall|k: u64| #[trigger] r.orders.contains_key(k) implies r.indexed(k) by {
        assert(q.orders.contains_key(k));
        assert(q.indexed(k));
        let e = choose|e: OrderIndex| #[trigger] q.entries.contains(e) && e.id == k;
        assert(e != t);
        assert(r.entries.contains(e));
    }
}

/// A queue has a best order exactly where it has a live entry, and a covered
/// queue exactly where it has a live order.
pub proof fn lemma_best_iff_live<T>(q: QueueView<T>)
    ensures
        q.best().is_some() <==> q.live().len() > 0,
        q.best().is_some() ==> is_best(q.live(), q.side, q.best().unwrap()) && q.entries.contains(
            q.best().unwrap(),
        ) && q.orders.contains_key(q.best().unwrap().id),
        q.covered() ==> (q.best().is_none() <==> q.orders =~= Map::<u64, T>::empty()),
{
    broadcast use vstd::multiset::group_multiset_axioms;

    let live = q.live();
    if live.len() > 0 {
        lemma_best_exists(live, q.side);
    } else {
        lemma_best_of_empty(live, q.side);
    }
    if q.best().is_some() {
        let b = q.best().unwrap();
        assert(live.contains(b));
        assert(keeps_live(q.orders)(b));
    }
    if q.covered() {
        if q.best().is_none() {
            assert forall|k: u64| !q.orders.contains_key(k) by {
                if q.orders.contains_key(k) {
                    assert(q.indexed(k));
                    let e = choose|e: OrderIndex| #[trigger] q.entries.contains(e) && e.id == k;
                    assert(keeps_live(q.orders)(e));
                    assert(live.contains(e));
                    vstd::multiset::axiom_count_le_len(live, e);
                }
            }
            assert(q.orders =~= Map::<u64, T>::empty());
        }
    }
}

/// Pruning keeps the live entries and the best order, brings the best live
/// entry to the top, does not add entries, and changes nothing when repeated.
pub proof fn lemma_pruned<T>(q: QueueView<T>)
    ensures
        q.pruned().live() == q.live(),
        q.pruned().best() == q.best(),
        q.pruned().best_order() == q.best_order(),
        q.pruned().top() == q.best(),
        q.pruned().pruned() == q.pruned(),
        q.pruned().entries.len() <= q.entries.len(),
        q.pruned().entries.subset_of(q.entries),
        q.best().is_some() ==> q.pruned().top_is_live(),
        q.covered() ==> q.pruned().covered(),
{
    broadcast use vstd::multiset::group_multiset_axioms;

    let p = q.pruned();
    lemma_best_iff_live(q);
    match q.best() {
        Some(b) => {
            let keep = keeps_behind(q.orders, b, q.side);
            lemma_filter_len(q.entries, keep);
            assert forall|x: OrderIndex| p.live().count(x) == q.live().count(x) by {
                if keeps_live(q.orders)(x) {
                    assert(keep(x));
                }
            }
            assert(p.live() =~= q.live());
            assert(keep(b));
            assert(p.entries.contains(b));
            assert forall|x: OrderIndex| #[trigger] p.entries.contains(x) implies !x.before(
                b,
                q.side,
            ) by {
                assert(keep(x));
                if q.orders.contains_key(x.id) {
                    assert(keeps_live(q.orders)(x));
                    assert(q.live().contains(x));
                }
            }
            lemma_best_unique(p.entries, q.side, b);
            assert forall|x: OrderIndex| p.entries.filter(keep).count(x) == p.entries.count(
                x,
            ) by {}
            assert(p.entries.filter(keep) =~= p.entries);
        },
        None => {
            assert(q.live() =~= Multiset::<OrderIndex>::empty());
            assert(p.live() =~= Multiset::<OrderIndex>::empty());
            lemma_best_of_empty(p.entries, q.side);
        },
    }
    if q.covered() {
        assert forall|k: u64| #[trigger] p.orders.contains_key(k) implies p.indexed(k) by {
            assert(q.indexed(k));
            let e = choose|e: OrderIndex| #[trigger] q.entries.contains(e) && e.id == k;
            assert(keeps_live(q.orders)(e));
            assert(q.live().contains(e));
            assert(p.live().contains(e));
            assert(p.entries.contains(e));
        }
    }
}

/// Taking out the best order after pruning is taking it out at once, leaves
/// fewer entries, and keeps every other live order indexed.
pub proof fn lemma_popped<T>(q: QueueView<T>)
    ensures
        q.pruned().popped() == q.popped(),
        q.best().is_some() ==> q.popped().entries.len() < q.entries.len(),
        q.covered() ==> q.popped().covered(),
{
    broadcast use vstd::multiset::group_multiset_axioms;

    lemma_pruned(q);
    lemma_best_iff_live(q);
    match q.best() {
        Some(b) => {
            assert(q.pruned().entries.contains(b)) by {
                assert(keeps_behind(q.orders, b, q.side)(b));
            }
            if q.covered() {
                lemma_remove_keeps_covered(q.pruned(), b);
            }
        },
        None => {},
    }
}

/// The live entries after the best order is taken out are those that do not
/// carry its id.
pub proof fn lemma_popped_live<T>(q: QueueView<T>)
    ensures
        match q.best() {
            Some(b) => {
                &&& q.popped().live() == q.live().filter(keeps_other(b.id))
                &&& q.popped().orders == q.orders.remove(b.id)
            },
            None => q.popped().live() == q.live() && q.popped().orders == q.orders,
        },
        q.popped().side == q.side,
{
    broadcast use vstd::multiset::group_multiset_axioms;

    lemma_pruned(q);
    lemma_best_iff_live(q);
    let p = q.pruned();
    let r = q.popped();
    match q.best() {
        Some(b) => {
            assert forall|x: OrderIndex|
                r.live().count(x) == q.live().filter(keeps_other(b.id)).count(x) by {
                if x.id == b.id {
                    assert(!keeps_live(r.orders)(x));
                } else {
                    assert(x != b);
                    assert(keeps_live(r.orders)(x) == keeps_live(q.orders)(x));
                    assert(p.live().count(x) == q.live().count(x));
                }
            }
            assert(r.live() =~= q.live().filter(keeps_other(b.id)));
        },
        None => {},
    }
}

/// Two queues of one side with the same live orders and the same live
/// entries. Such queues differ at most in stale entries and in the state of
/// the cleaning policy.
pub open spec fn same_orders<T>(a: QueueView<T>, b: QueueView<T>) -> bool {
    &&& a.side == b.side
    &&& a.orders == b.orders
    &&& a.live() == b.live()
}

/// Queues with the same live orders answer `peek` and `pop` alike, and have
/// the same live orders afterwards.
pub proof fn lemma_same_orders_look_alike<T>(a: QueueView<T>, b: QueueView<T>)
    requires
        same_orders(a, b),
    ensures
        a.best_order() == b.best_order(),
        same_orders(a.pruned(), b.pruned()),
        same_orders(a.popped(), b.popped()),
{
    lemma_pruned(a);
    lemma_pruned(b);
    lemma_popped_live(a);
    lemma_popped_live(b);
}

/// An order that is added and then withdrawn leaves the queue with the live
/// orders it had, so that `peek` and `pop` cannot tell it was there.
pub proof fn lemma_insert_cancel_round_trip<T>(
    q: QueueView<T>,
    id: u64,
    price: u64,
    ts: u64,
    order: T,
)
    requires
        !q.orders.contains_key(id),
    ensures
        same_orders(q.inserted(id, price, ts, order).cancelled(id), q),
{
    broadcast use vstd::multiset::group_multiset_axioms;

    let added = q.inserted(id, price, ts, order);
    let back = added.cancelled(id);
    assert(added.orders.remove(id) =~= q.orders);
    assert forall|x: OrderIndex| back.live().count(x) == q.live().count(x) by {
        assert(keeps_live(back.orders)(x) == keeps_live(q.orders)(x));
        if x.id == id {
            assert(!keeps_live(q.orders)(x));
        }
    }
    assert(back.live() =~= q.live());
}

/// A second cancellation of the same id finds no order and changes nothing.
pub proof fn lemma_cancel_twice<T>(q: QueueView<T>, id: u64)
    ensures
        !q.cancelled(id).orders.contains_key(id),
        q.cancelled(id).cancelled(id) == q.cancelled(id),
{
}

/// Of two live entries at one price the later one is not the best, and stays
/// live when the best order is taken out, unless it carries the same id.
pub proof fn lemma_price_time_priority<T>(q: QueueView<T>, a: OrderIndex, b: OrderIndex)
    requires
        q.live().contains(a),
        q.live().contains(b),
        a.price == b.price,
        a.timestamp < b.timestamp,
    ensures
        q.best().is_some(),
        q.best() != Some(b),
        q.best().unwrap().id != b.id ==> q.popped().live().contains(b),
{
    broadcast use vstd::multiset::group_multiset_axioms;

    vstd::multiset::axiom_count_le_len(q.live(), a);
    lemma_best_iff_live(q);
    assert(a.before(b, q.side));
    lemma_popped_live(q);
    let top = q.best().unwrap();
    if top.id != b.id {
        assert(keeps_other(top.id)(b));
    }
}

/// An amendment is a cancellation followed by an insertion, to `peek` and
/// `pop`, where the cancellation cleans the heap. Where it does not, the old
/// entry stays behind and counts again once the id is live.
pub proof fn lemma_amend_is_cancel_then_insert<T>(
    q: QueueView<T>,
    id: u64,
    price: u64,
    ts: u64,
    order: T,
)
    requires
        q.orders.contains_key(id),
        q.stale_ops > q.max_stalled,
    ensures
        same_orders(
            q.amended(id, price, ts, order),
            q.cancelled(id).inserted(id, price, ts, order),
        ),
{
    broadcast use vstd::multiset::group_multiset_axioms;

    let amended = q.amended(id, price, ts, order);
    let gone = q.cancelled(id);
    let back = gone.inserted(id, price, ts, order);
    let entry = OrderIndex { id, price, timestamp: ts };
    assert(back.orders =~= amended.orders);
    assert forall|x: OrderIndex| back.live().count(x) == amended.live().count(x) by {
        assert(keeps_live(back.orders)(x) == keeps_live(q.orders)(x));
        assert(keeps_live(amended.orders)(x) == keeps_live(q.orders)(x));
        if x.id == id {
            assert(!keeps_live(q.orders.remove(id))(x));
            assert(!keeps_other(id)(x));
        } else {
            assert(keeps_other(id)(x));
            assert(keeps_live(q.orders.remove(id))(x) == keeps_live(q.orders)(x));
        }
    }
    assert(back.live() =~= amended.live());
}

/// The entries of the orders that `pop` hands out, one after the other, until
/// the queue has no live order left.
pub open spec fn drained<T>(q: QueueView<T>) -> Seq<OrderIndex>
    decreases q.entries.len(),
{
    match q.best() {
        None => Seq::empty(),
        Some(b) => {
            proof {
                lemma_popped(q);
            }
            seq![b] + drained(q.popped())
        },
    }
}

/// Every entry that a run of `pop` hands out is live at the start.
pub proof fn lemma_drained_live<T>(q: QueueView<T>, i: int)
    requires
        0 <= i < drained(q).len(),
    ensures
        q.live().contains(drained(q)[i]),
    decreases q.entries.len(),
{
    broadcast use vstd::multiset::group_multiset_axioms;

    lemma_best_iff_live(q);
    lemma_popped(q);
    lemma_popped_live(q);
    if i > 0 {
        let b = q.best().unwrap();
        lemma_drained_live(q.popped(), i - 1);
        assert(drained(q)[i] == drained(q.popped())[i - 1]);
        assert(q.popped().live().contains(drained(q)[i]));
    }
}

/// A run of `pop` hands out the orders by price-time priority: none has less
/// priority than one that leaves after it. Among orders of one price the one
/// with the earlier timestamp leaves first.
pub proof fn lemma_drained_sorted<T>(q: QueueView<T>, i: int, j: int)
    requires
        0 <= i < j < drained(q).len(),
    ensures
        !drained(q)[j].before(drained(q)[i], q.side),
        drained(q)[i].priority(drained(q)[j], q.side) != Ordering::Less,
        drained(q)[i].price == drained(q)[j].price ==> drained(q)[i].timestamp
            <= drained(q)[j].timestamp,
    decreases q.entries.len(),
{
    lemma_best_iff_live(q);
    lemma_popped(q);
    lemma_popped_live(q);
    let b = q.best().unwrap();
    assert(drained(q)[j] == drained(q.popped())[j - 1]);
    if i == 0 {
        lemma_drained_live(q, j);
    } else {
        assert(drained(q)[i] == drained(q.popped())[i - 1]);
        lemma_drained_sorted(q.popped(), i - 1, j - 1);
    }
}

} // verus!
