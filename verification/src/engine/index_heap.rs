use std::cmp::Ordering;
use vstd::multiset::Multiset;
use vstd::prelude::*;

use super::domain::OrderSide;

verus! {

/// Position of a resting order in the priority order of its side.
#[derive(Debug, Copy, Clone, PartialEq, Eq, Structural)]
pub struct OrderIndex {
    pub id: u64,
    pub price: u64,
    pub timestamp: u64,
}

impl OrderIndex {
    /// Price-time priority of `self` against `other` on `side`, greater for
    /// the entry that trades first: the better price (higher for bids, lower
    /// for asks), then the earlier timestamp. Entries that agree in price and
    /// timestamp are equal, whatever their ids.
    pub open spec fn priority(self, other: OrderIndex, side: OrderSide) -> Ordering {
        if self.price < other.price {
            match side {
                OrderSide::Bid => Ordering::Less,
                OrderSide::Ask => Ordering::Greater,
            }
        } else if self.price > other.price {
            match side {
                OrderSide::Bid => Ordering::Greater,
                OrderSide::Ask => Ordering::Less,
            }
        } else if self.timestamp < other.timestamp {
            Ordering::Greater
        } else if self.timestamp > other.timestamp {
            Ordering::Less
        } else {
            Ordering::Equal
        }
    }

    /// Compares the price-time priority of `self` with that of `other` on
    /// `side`.
    pub fn cmp(&self, other: &OrderIndex, side: OrderSide) -> (ordering: Ordering)
        ensures
            ordering == self.priority(*other, side),
    {
        if self.price < other.price {
            match side {
                OrderSide::Bid => Ordering::Less,
                OrderSide::Ask => Ordering::Greater,
            }
        } else if self.price > other.price {
            match side {
                OrderSide::Bid => Ordering::Greater,
                OrderSide::Ask => Ordering::Less,
            }
        } else if self.timestamp < other.timestamp {
            Ordering::Greater
        } else if self.timestamp > other.timestamp {
            Ordering::Less
        } else {
            Ordering::Equal
        }
    }

    /// The queue's own rule for entries that price-time priority leaves
    /// equal: the entry with the lower id goes first.
    pub open spec fn lower_id_first(self, other: OrderIndex) -> bool {
        self.id < other.id
    }

    /// The order in which a heap hands out its entries: the entry of greater
    /// price-time priority first, and of two entries of equal priority the
    /// one that `lower_id_first` names. With that rule what a heap hands out
    /// depends on the entries alone.
    pub open spec fn before(self, other: OrderIndex, side: OrderSide) -> bool {
        match self.priority(other, side) {
            Ordering::Greater => true,
            Ordering::Less => false,
            Ordering::Equal => self.lower_id_first(other),
        }
    }

    /// Decides whether a heap of `side` hands out `self` before `other`.
    pub fn outranks(&self, other: &OrderIndex, side: OrderSide) -> (r: bool)
        ensures
            r == self.before(*other, side),
    {
        match self.cmp(other, side) {
            Ordering::Greater => true,
            Ordering::Less => false,
            Ordering::Equal => self.id < other.id,
        }
    }
}

/// Price-time priority is an order on the entries of a side: turning a
/// comparison round reverses it, entries are equal exactly where price and
/// timestamp agree, and priority carries over from one pair to the next.
pub proof fn lemma_priority_orders(a: OrderIndex, b: OrderIndex, c: OrderIndex, side: OrderSide)
    ensures
        a.priority(b, side) == Ordering::Greater <==> b.priority(a, side) == Ordering::Less,
        a.priority(b, side) == Ordering::Equal <==> b.priority(a, side) == Ordering::Equal,
        a.priority(b, side) == Ordering::Equal <==> a.price == b.price && a.timestamp
            == b.timestamp,
        a.priority(b, side) != Ordering::Less && b.priority(c, side) != Ordering::Less
            ==> a.priority(c, side) != Ordering::Less,
        a.priority(b, side) == Ordering::Greater && b.priority(c, side) != Ordering::Less
            ==> a.priority(c, side) == Ordering::Greater,
        a.priority(b, side) != Ordering::Less && b.priority(c, side) == Ordering::Greater
            ==> a.priority(c, side) == Ordering::Greater,
{
}

/// The order of a heap refines price-time priority: it puts the entry of
/// greater priority first, and decides between two distinct entries.
pub proof fn lemma_before_refines_priority(a: OrderIndex, b: OrderIndex, side: OrderSide)
    ensures
        a.priority(b, side) == Ordering::Greater ==> a.before(b, side),
        a.before(b, side) ==> a.priority(b, side) != Ordering::Less,
        !(a.before(b, side) && b.before(a, side)),
        a != b ==> a.before(b, side) || b.before(a, side),
{
}

/// `e` occurs in `m` and no entry of `m` comes before it in the order of a
/// heap of `side`.
pub open spec fn is_best(m: Multiset<OrderIndex>, side: OrderSide, e: OrderIndex) -> bool {
    &&& m.contains(e)
    &&& forall|x: OrderIndex| #[trigger] m.contains(x) ==> !x.before(e, side)
}

/// The entry of `m` that a heap of `side` hands out first, if `m` has any: one
/// of greatest price-time priority, and among those the one of lowest id.
pub open spec fn best_of(m: Multiset<OrderIndex>, side: OrderSide) -> Option<OrderIndex> {
    if exists|e: OrderIndex| is_best(m, side, e) {
        Some(choose|e: OrderIndex| is_best(m, side, e))
    } else {
        None
    }
}

/// A multiset has at most one best entry.
pub proof fn lemma_best_unique(m: Multiset<OrderIndex>, side: OrderSide, e: OrderIndex)
    requires
        is_best(m, side, e),
    ensures
        best_of(m, side) == Some(e),
{
    let c = choose|c: OrderIndex| is_best(m, side, c);
    assert(m.contains(c) && m.contains(e));
    assert(!c.before(e, side) && !e.before(c, side));
}

/// An empty multiset has no best entry.
pub proof fn lemma_best_of_empty(m: Multiset<OrderIndex>, side: OrderSide)
    requires
        m.len() == 0,
    ensures
        best_of(m, side).is_none(),
{
    assert forall|e: OrderIndex| !is_best(m, side, e) by {
        if m.contains(e) {
            vstd::multiset::axiom_count_le_len(m, e);
        }
    }
}

/// A multiset with an entry has a best entry.
pub proof fn lemma_best_exists(m: Multiset<OrderIndex>, side: OrderSide)
    requires
        m.len() > 0,
    ensures
        best_of(m, side).is_some(),
        is_best(m, side, best_of(m, side).unwrap()),
    decreases m.len(),
{
    broadcast use vstd::multiset::group_multiset_axioms;

    let x = m.choose();
    assert(m.contains(x));
    let rest = m.remove(x);
    if rest.len() == 0 {
        assert forall|y: OrderIndex| #[trigger] m.contains(y) implies !y.before(x, side) by {
            if y != x {
                assert(rest.count(y) == m.count(y));
                vstd::multiset::axiom_count_le_len(rest, y);
            }
        }
        assert(is_best(m, side, x));
    } else {
        lemma_best_exists(rest, side);
        let b = best_of(rest, side).unwrap();
        assert(rest.contains(b));
        assert(m.contains(b));
        if x.before(b, side) {
            assert forall|y: OrderIndex| #[trigger] m.contains(y) implies !y.before(x, side) by {
                if y != x {
                    assert(rest.contains(y));
                    assert(!y.before(b, side));
                }
            }
            assert(is_best(m, side, x));
        } else {
            assert forall|y: OrderIndex| #[trigger] m.contains(y) implies !y.before(b, side) by {
                if y != x {
                    assert(rest.contains(y));
                }
            }
            assert(is_best(m, side, b));
        }
    }
    let w = choose|e: OrderIndex| is_best(m, side, e);
    assert(is_best(m, side, w));
}

/// Keeping some entries of a multiset does not make it longer.
pub proof fn lemma_filter_len(m: Multiset<OrderIndex>, keep: spec_fn(OrderIndex) -> bool)
    ensures
        m.filter(keep).len() <= m.len(),
{
    broadcast use vstd::multiset::group_multiset_axioms;

    let drop = |e: OrderIndex| !keep(e);
    assert(m =~= m.filter(keep).add(m.filter(drop)));
}

/// Index of the parent of node `i` in the array layout of a binary heap.
pub open spec fn parent(i: int) -> int {
    (i - 1) / 2
}

/// No node of `s` has strict priority over its parent.
pub open spec fn heap_ordered(s: Seq<OrderIndex>, side: OrderSide) -> bool {
    forall|j: int| 0 < j < s.len() ==> !(#[trigger] s[j]).before(s[parent(j)], side)
}

/// Heap order holds everywhere but between node `k` and its parent, and the
/// children of `k` do not outrank the parent of `k`.
pub open spec fn ordered_but_above(s: Seq<OrderIndex>, side: OrderSide, k: int) -> bool {
    &&& forall|j: int| 0 < j < s.len() && j != k ==> !(#[trigger] s[j]).before(s[parent(j)], side)
    &&& forall|j: int|
        0 < j < s.len() && parent(j) == k && k > 0 ==> !(#[trigger] s[j]).before(
            s[parent(k)],
            side,
        )
}

/// Heap order holds everywhere but between node `k` and its children, and the
/// children of `k` do not outrank the parent of `k`.
pub open spec fn ordered_but_below(s: Seq<OrderIndex>, side: OrderSide, k: int) -> bool {
    &&& forall|j: int|
        0 < j < s.len() && parent(j) != k ==> !(#[trigger] s[j]).before(s[parent(j)], side)
    &&& forall|j: int|
        0 < j < s.len() && parent(j) == k && k > 0 ==> !(#[trigger] s[j]).before(
            s[parent(k)],
            side,
        )
}

/// Overwriting one slot replaces one occurrence in the multiset of a sequence.
pub proof fn lemma_update_multiset(s: Seq<OrderIndex>, i: int, x: OrderIndex)
    requires
        0 <= i < s.len(),
    ensures
        s.update(i, x).to_multiset() == s.to_multiset().remove(s[i]).insert(x),
{
    broadcast use vstd::seq_lib::group_to_multiset_ensures;

    assert(s.update(i, x) =~= s.remove(i).insert(i, x));
    assert(s.remove(i).insert(i, x).to_multiset() =~= s.remove(i).to_multiset().insert(x));
    assert(s.remove(i).to_multiset() =~= s.to_multiset().remove(s[i]));
}

/// Exchanging two slots keeps the multiset of a sequence.
pub proof fn lemma_swap_multiset(s: Seq<OrderIndex>, i: int, j: int)
    requires
        0 <= i < s.len(),
        0 <= j < s.len(),
    ensures
        s.update(i, s[j]).update(j, s[i]).to_multiset() == s.to_multiset(),
{
    broadcast use vstd::seq_lib::group_to_multiset_ensures;

    let t = s.update(i, s[j]);
    lemma_update_multiset(s, i, s[j]);
    lemma_update_multiset(t, j, s[i]);
    assert(s.contains(s[i]) && s.contains(s[j]));
    if i == j {
        assert(t.update(j, s[i]) =~= s);
    } else {
        assert(t[j] == s[j]);
        assert(t.update(j, s[i]).to_multiset() =~= s.to_multiset());
    }
}

/// In a heap-ordered sequence no node outranks the root.
pub proof fn lemma_root_leads(s: Seq<OrderIndex>, side: OrderSide, i: int)
    requires
        heap_ordered(s, side),
        0 <= i < s.len(),
    ensures
        !s[i].before(s[0], side),
    decreases i,
{
    if i > 0 {
        lemma_root_leads(s, side, parent(i));
        assert(!s[i].before(s[parent(i)], side));
    }
}

/// The root of a non-empty heap-ordered sequence is the best of its entries.
pub proof fn lemma_root_is_best(s: Seq<OrderIndex>, side: OrderSide)
    requires
        heap_ordered(s, side),
        s.len() > 0,
    ensures
        best_of(s.to_multiset(), side) == Some(s[0]),
{
    broadcast use vstd::seq_lib::group_to_multiset_ensures;

    let m = s.to_multiset();
    assert(s.contains(s[0]));
    assert forall|x: OrderIndex| #[trigger] m.contains(x) implies !x.before(s[0], side) by {
        assert(s.contains(x));
        let i = choose|i: int| 0 <= i < s.len() && s[i] == x;
        lemma_root_leads(s, side, i);
    }
    lemma_best_unique(m, side, s[0]);
}

/// Binary max-heap of index entries under the price-time priority of one side.
/// Among entries of equal priority the one with the lower id is handed out
/// first; see `OrderIndex::before`.
pub struct IndexHeap {
    entries: Vec<OrderIndex>,
    side: OrderSide,
}

impl View for IndexHeap {
    type V = Multiset<OrderIndex>;

    closed spec fn view(&self) -> Multiset<OrderIndex> {
        self.entries@.to_multiset()
    }
}

impl IndexHeap {
    /// The side whose priority orders the heap.
    pub closed spec fn side(&self) -> OrderSide {
        self.side
    }

    /// The backing array is in heap order.
    pub closed spec fn wf(&self) -> bool {
        heap_ordered(self.entries@, self.side)
    }

    /// An empty heap for `side` with room for `capacity` entries.
    pub fn new(side: OrderSide, capacity: usize) -> (heap: IndexHeap)
        ensures
            heap.wf(),
            heap.side() == side,
            heap@ == Multiset::<OrderIndex>::empty(),
    {
        let heap = IndexHeap { entries: Vec::with_capacity(capacity), side };
        proof {
            assert(heap.entries@ =~= Seq::<OrderIndex>::empty());
            assert(heap.entries@.to_multiset() =~= Multiset::<OrderIndex>::empty()) by {
                broadcast use vstd::seq_lib::group_to_multiset_ensures;
                vstd::multiset::lemma_multiset_empty_len(heap.entries@.to_multiset());
            }
        }
        heap
    }

    /// Number of entries, stale ones included.
    pub fn len(&self) -> (n: usize)
        ensures
            n == self@.len(),
    {
        proof {
            broadcast use vstd::seq_lib::group_to_multiset_ensures;
        }
        self.entries.len()
    }

    /// The entry with the highest priority, left in place.
    pub fn peek(&self) -> (top: Option<OrderIndex>)
        requires
            self.wf(),
        ensures
            top == best_of(self@, self.side()),
            top.is_none() <==> self@.len() == 0,
    {
        proof {
            broadcast use vstd::seq_lib::group_to_multiset_ensures;
        }
        if self.entries.len() == 0 {
            proof {
                lemma_best_of_empty(self@, self.side);
            }
            None
        } else {
            proof {
                lemma_root_is_best(self.entries@, self.side);
            }
            Some(self.entries[0])
        }
    }

    /// Adds `entry`, restoring heap order by moving it up from the last slot.
    pub fn push(&mut self, entry: OrderIndex)
        requires
            old(self).wf(),
        ensures
            final(self).wf(),
            final(self).side() == old(self).side(),
            final(self)@ == old(self)@.insert(entry),
    {
        self.entries.push(entry);
        proof {
            broadcast use vstd::seq_lib::group_to_multiset_ensures;
            assert(self.entries@ == old(self).entries@.push(entry));
        }
        let mut i: usize = self.entries.len() - 1;
        let mut settled: bool = false;
        while i > 0 && !settled
            invariant
                i < self.entries.len(),
                self.side == old(self).side,
                self.entries@.to_multiset() == old(self).entries@.to_multiset().insert(entry),
                ordered_but_above(self.entries@, self.side, i as int),
                settled ==> heap_ordered(self.entries@, self.side),
            decreases i + (if settled { 0int } else { 1int }),
        {
            let p: usize = (i - 1) / 2;
            let child: OrderIndex = self.entries[i];
            let above: OrderIndex = self.entries[p];
            if child.outranks(&above, self.side) {
                let ghost before_swap = self.entries@;
                self.entries.set(i, above);
                self.entries.set(p, child);
                proof {
                    lemma_swap_multiset(before_swap, i as int, p as int);
                    assert(self.entries@ =~= before_swap.update(i as int, above).update(
                        p as int,
                        child,
                    ));
                }
                i = p;
            } else {
                settled = true;
            }
        }
    }

    /// Removes and returns the entry with the highest priority, restoring heap
    /// order by moving the last entry down from the root.
    pub fn pop(&mut self) -> (top: Option<OrderIndex>)
        requires
            old(self).wf(),
        ensures
            final(self).wf(),
            final(self).side() == old(self).side(),
            top == best_of(old(self)@, old(self).side()),
            top.is_none() <==> old(self)@.len() == 0,
            match top {
                Some(e) => final(self)@ == old(self)@.remove(e),
                None => final(self)@ == old(self)@,
            },
    {
        proof {
            broadcast use vstd::seq_lib::group_to_multiset_ensures;
        }
        let n: usize = self.entries.len();
        if n == 0 {
            proof {
                lemma_best_of_empty(self@, self.side);
            }
            return None;
        }
        proof {
            lemma_root_is_best(self.entries@, self.side);
        }
        let top: OrderIndex = self.entries[0];
        let last: OrderIndex = self.entries.pop().unwrap();
        let ghost shorter = self.entries@;
        proof {
            assert(old(self).entries@ =~= shorter.push(last));
        }
        if n == 1 {
            proof {
                assert(shorter.to_multiset() =~= old(self)@.remove(top));
            }
            return Some(top);
        }
        self.entries.set(0, last);
        proof {
            lemma_update_multiset(shorter, 0, last);
            assert(shorter[0] == top);
            assert(self.entries@.to_multiset() =~= old(self)@.remove(top));
        }
        let len: usize = n - 1;
        let half: usize = len / 2;
        let mut i: usize = 0;
        let mut settled: bool = false;
        while i < half && !settled
            invariant
                len == self.entries.len(),
                half == len / 2,
                i < len,
                self.side == old(self).side,
                self.entries@.to_multiset() == old(self)@.remove(top),
                ordered_but_below(self.entries@, self.side, i as int),
                settled ==> heap_ordered(self.entries@, self.side),
            decreases len - i + (if settled { 0int } else { 1int }),
        {
            let left: usize = 2 * i + 1;
            let right: usize = left + 1;
            let mut c: usize = left;
            if right < len {
                let a: OrderIndex = self.entries[right];
                let b: OrderIndex = self.entries[left];
                if a.outranks(&b, self.side) {
                    c = right;
                }
            }
            let child: OrderIndex = self.entries[c];
            let here: OrderIndex = self.entries[i];
            if child.outranks(&here, self.side) {
                let ghost before_swap = self.entries@;
                self.entries.set(i, child);
                self.entries.set(c, here);
                proof {
                    lemma_swap_multiset(before_swap, c as int, i as int);
                    assert(self.entries@ =~= before_swap.update(c as int, here).update(
                        i as int,
                        child,
                    ));
                }
                i = c;
            } else {
                settled = true;
            }
        }
        Some(top)
    }

    /// Moves the entries out in array order and leaves the heap empty.
    pub fn take_entries(&mut self) -> (entries: Vec<OrderIndex>)
        ensures
            final(self).wf(),
            final(self).side() == old(self).side(),
            final(self)@ == Multiset::<OrderIndex>::empty(),
            entries@.to_multiset() == old(self)@,
    {
        let mut entries: Vec<OrderIndex> = Vec::new();
        std::mem::swap(&mut self.entries, &mut entries);
        proof {
            broadcast use vstd::seq_lib::group_to_multiset_ensures;
            assert(self.entries@ =~= Seq::<OrderIndex>::empty());
            vstd::multiset::lemma_multiset_empty_len(self.entries@.to_multiset());
            assert(self.entries@.to_multiset() =~= Multiset::<OrderIndex>::empty());
        }
        entries
    }
}

/// The kept entries of a prefix, one slot longer, are those of the prefix plus
/// the new slot where `keep` holds of it.
pub proof fn lemma_filter_step(s: Seq<OrderIndex>, i: int, keep: spec_fn(OrderIndex) -> bool)
    requires
        0 <= i < s.len(),
    ensures
        s.subrange(0, i + 1).to_multiset().filter(keep) == if keep(s[i]) {
            s.subrange(0, i).to_multiset().filter(keep).insert(s[i])
        } else {
            s.subrange(0, i).to_multiset().filter(keep)
        },
{
    broadcast use vstd::seq_lib::group_to_multiset_ensures;
    broadcast use vstd::multiset::group_multiset_axioms;

    let shorter = s.subrange(0, i);
    let longer = s.subrange(0, i + 1);
    assert(longer =~= shorter.push(s[i]));
    assert(longer.to_multiset() =~= shorter.to_multiset().insert(s[i]));
    if keep(s[i]) {
        assert(longer.to_multiset().filter(keep) =~= shorter.to_multiset().filter(keep).insert(
            s[i],
        ));
    } else {
        assert(longer.to_multiset().filter(keep) =~= shorter.to_multiset().filter(keep));
    }
}

} // verus!
