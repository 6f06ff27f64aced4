use vstd::prelude::*;
use vstd::std_specs::cmp::PartialEqSpec;

use super::clock;
use super::domain::{Order, OrderSide, OrderType};
use super::invariants::{lemma_empty_book, lemma_settled, lemma_spread_is_open};
use super::order_queues::{lemma_popped, OrderQueue, QueueView};
use super::orders::OrderRequest;
use super::sequence::{new_sequence_gen, TradeSequence};
use super::validation::{OrderRequestValidator, ValidationError, ValidatorView};

verus! {

/// Lowest order id a book hands out.
pub const MIN_SEQUENCE_ID: u64 = 1;

/// Highest order id a book hands out before it starts over.
pub const MAX_SEQUENCE_ID: u64 = 1000;

/// Number of cancellations a queue lets pass before it drops stale entries.
pub const MAX_STALLED_INDICES_IN_QUEUE: u64 = 10;

/// Room that a queue of a new book reserves.
pub const ORDER_QUEUE_INIT_CAPACITY: usize = 500;

pub type OrderProcessingResult = Vec<Result<Success, Failed>>;

/// What a request achieved.
#[derive(Debug, Copy, Clone, PartialEq, Eq)]
pub enum Success {
    Accepted { id: u64, order_type: OrderType, ts: u64 },
    Filled { order_id: u64, side: OrderSide, order_type: OrderType, price: u64, qty: u64, ts: u64 },
    PartiallyFilled {
        order_id: u64,
        side: OrderSide,
        order_type: OrderType,
        price: u64,
        qty: u64,
        ts: u64,
    },
    Amended { id: u64, price: u64, qty: u64, ts: u64 },
    Cancelled { id: u64, ts: u64 },
}

/// Why a request, or the rest of it, came to nothing.
#[derive(Debug, Copy, Clone, PartialEq, Eq)]
pub enum Failed {
    ValidationFailed(ValidationError),
    DuplicateOrderID(u64),
    NoMatch(u64),
    OrderNotFound(u64),
    AmendWouldCross(u64),
}

/// Whether an incoming order on `side` trades against a resting order at
/// `resting_price`: a market order always does, a limit order where its price
/// is at least as good.
pub open spec fn crosses(side: OrderSide, limit: Option<u64>, resting_price: u64) -> bool {
    match limit {
        None => true,
        Some(price) => match side {
            OrderSide::Bid => price >= resting_price,
            OrderSide::Ask => price <= resting_price,
        },
    }
}

/// The type of an incoming order with the given limit price, if any.
pub open spec fn type_of(limit: Option<u64>) -> OrderType {
    match limit {
        None => OrderType::Market,
        Some(_) => OrderType::Limit,
    }
}

/// The two reports of one trade between an incoming order with `qty` left and
/// the resting order `resting`, the incoming order's first. The trade is made
/// at the resting price for the smaller of the two quantities.
pub open spec fn trade_events<Asset>(
    id: u64,
    side: OrderSide,
    order_type: OrderType,
    qty: u64,
    resting: Order<Asset>,
    now: u64,
) -> Seq<Result<Success, Failed>> {
    if qty < resting.qty {
        seq![
            Ok(Success::Filled { order_id: id, side, order_type, price: resting.price, qty, ts: now }),
            Ok(
                Success::PartiallyFilled {
                    order_id: resting.order_id,
                    side: resting.side,
                    order_type: OrderType::Limit,
                    price: resting.price,
                    qty,
                    ts: now,
                },
            ),
        ]
    } else if qty > resting.qty {
        seq![
            Ok(
                Success::PartiallyFilled {
                    order_id: id,
                    side,
                    order_type,
                    price: resting.price,
                    qty: resting.qty,
                    ts: now,
                },
            ),
            Ok(
                Success::Filled {
                    order_id: resting.order_id,
                    side: resting.side,
                    order_type: OrderType::Limit,
                    price: resting.price,
                    qty: resting.qty,
                    ts: now,
                },
            ),
        ]
    } else {
        seq![
            Ok(Success::Filled { order_id: id, side, order_type, price: resting.price, qty, ts: now }),
            Ok(
                Success::Filled {
                    order_id: resting.order_id,
                    side: resting.side,
                    order_type: OrderType::Limit,
                    price: resting.price,
                    qty,
                    ts: now,
                },
            ),
        ]
    }
}

/// The opposite queue after one trade: the resting order keeps what the
/// incoming order did not take, or leaves the queue.
pub open spec fn trade_queue<Asset>(
    pruned: QueueView<Order<Asset>>,
    qty: u64,
    resting: Order<Asset>,
) -> QueueView<Order<Asset>> {
    if qty < resting.qty {
        pruned.modified(Order { qty: (resting.qty - qty) as u64, ..resting })
    } else {
        pruned.popped()
    }
}

/// Result of matching an incoming order against the opposite queue.
pub struct Matching<Asset> {
    /// The opposite queue after the trades.
    pub opposite: QueueView<Order<Asset>>,
    /// The reports of the trades, in the order they were made.
    pub events: Seq<Result<Success, Failed>>,
    /// The quantity that found no counterpart, if any did not.
    pub unfilled: Option<u64>,
}

/// Matches an incoming order with `qty` left against `opposite`, best resting
/// order first, until the incoming order is filled, the queue has no order
/// left, or the best order left no longer crosses the limit price.
pub open spec fn matched<Asset>(
    opposite: QueueView<Order<Asset>>,
    id: u64,
    side: OrderSide,
    limit: Option<u64>,
    qty: u64,
    now: u64,
) -> Matching<Asset>
    decreases opposite.entries.len(),
{
    let pruned = opposite.pruned();
    match opposite.best_order() {
        None => Matching { opposite: pruned, events: Seq::empty(), unfilled: Some(qty) },
        Some(resting) => {
            if !crosses(side, limit, resting.price) {
                Matching { opposite: pruned, events: Seq::empty(), unfilled: Some(qty) }
            } else if qty > resting.qty {
                proof {
                    lemma_popped(opposite);
                }
                let rest = matched(
                    pruned.popped(),
                    id,
                    side,
                    limit,
                    (qty - resting.qty) as u64,
                    now,
                );
                Matching {
                    opposite: rest.opposite,
                    events: trade_events(id, side, type_of(limit), qty, resting, now) + rest.events,
                    unfilled: rest.unfilled,
                }
            } else {
                Matching {
                    opposite: trade_queue(pruned, qty, resting),
                    events: trade_events(id, side, type_of(limit), qty, resting, now),
                    unfilled: None,
                }
            }
        },
    }
}

/// What a book holds: the pair it trades, the two queues and the id that the
/// next accepted order gets.
pub struct BookView<Asset> {
    pub order_asset: Asset,
    pub price_asset: Asset,
    pub bids: QueueView<Order<Asset>>,
    pub asks: QueueView<Order<Asset>>,
    pub next_id: u64,
}

/// A book after a request, with the reports of what happened.
pub struct Outcome<Asset> {
    pub book: BookView<Asset>,
    pub events: Seq<Result<Success, Failed>>,
}

impl<Asset> BookView<Asset> {
    /// The queue of `side`.
    pub open spec fn queue(self, side: OrderSide) -> QueueView<Order<Asset>> {
        match side {
            OrderSide::Bid => self.bids,
            OrderSide::Ask => self.asks,
        }
    }

    /// The book with `queue` in place of the queue of `side`.
    pub open spec fn with_queue(self, side: OrderSide, queue: QueueView<Order<Asset>>) -> Self {
        match side {
            OrderSide::Bid => BookView { bids: queue, ..self },
            OrderSide::Ask => BookView { asks: queue, ..self },
        }
    }

    /// The book with the opposite queue of `side` pruned.
    pub open spec fn peeked(self, side: OrderSide) -> Self {
        self.with_queue(side.opposite(), self.queue(side.opposite()).pruned())
    }

    /// The rules that requests to this book are held to.
    pub open spec fn rules(self) -> ValidatorView<Asset> {
        ValidatorView {
            order_asset: self.order_asset,
            price_asset: self.price_asset,
            min_sequence_id: MIN_SEQUENCE_ID,
            max_sequence_id: MAX_SEQUENCE_ID,
        }
    }

    /// The id that follows `next_id` in the rotation.
    pub open spec fn minted(self) -> Self {
        BookView {
            next_id: TradeSequence::successor(MIN_SEQUENCE_ID, MAX_SEQUENCE_ID, self.next_id),
            ..self
        }
    }

    /// A market order is matched against the opposite queue; what finds no
    /// counterpart is reported and dropped.
    pub open spec fn after_market(self, id: u64, side: OrderSide, qty: u64, now: u64) -> Outcome<
        Asset,
    > {
        let m = matched(self.queue(side.opposite()), id, side, None, qty, now);
        Outcome {
            book: self.with_queue(side.opposite(), m.opposite),
            events: if m.unfilled.is_some() {
                m.events.push(Err(Failed::NoMatch(id)))
            } else {
                m.events
            },
        }
    }

    /// A limit order, or what is left of one, is put into the queue of its
    /// side, unless an order rests there under the same id.
    pub open spec fn stored(
        self,
        id: u64,
        order_asset: Asset,
        price_asset: Asset,
        side: OrderSide,
        price: u64,
        qty: u64,
        ts: u64,
    ) -> Outcome<Asset> {
        let own = self.queue(side);
        let order = Order { order_id: id, order_asset, price_asset, side, price, qty };
        Outcome {
            book: self.with_queue(side, own.inserted(id, price, ts, order)),
            events: if own.orders.contains_key(id) {
                seq![Err(Failed::DuplicateOrderID(id))]
            } else {
                Seq::empty()
            },
        }
    }

    /// A limit order is matched against the opposite queue while it crosses;
    /// what is left rests at its limit price with its own timestamp.
    pub open spec fn after_limit(
        self,
        id: u64,
        order_asset: Asset,
        price_asset: Asset,
        side: OrderSide,
        price: u64,
        qty: u64,
        ts: u64,
        now: u64,
    ) -> Outcome<Asset> {
        let m = matched(self.queue(side.opposite()), id, side, Some(price), qty, now);
        let traded = self.with_queue(side.opposite(), m.opposite);
        match m.unfilled {
            Some(rest) => {
                let s = traded.stored(id, order_asset, price_asset, side, price, rest, ts);
                Outcome { book: s.book, events: m.events + s.events }
            },
            None => Outcome { book: traded, events: m.events },
        }
    }

    /// An amendment replaces price, quantity and timestamp of a resting order
    /// and moves it in the queue of its side. It is refused where no order
    /// rests under `id`, and where the new price would cross the best order
    /// of the opposite side.
    pub open spec fn after_amend(
        self,
        id: u64,
        side: OrderSide,
        price: u64,
        qty: u64,
        ts: u64,
        now: u64,
    ) -> Outcome<Asset> {
        let own = self.queue(side);
        if !own.orders.contains_key(id) {
            Outcome { book: self, events: seq![Err(Failed::OrderNotFound(id))] }
        } else {
            let seen = self.peeked(side);
            let blocked = match self.queue(side.opposite()).best_order() {
                Some(resting) => crosses(side, Some(price), resting.price),
                None => false,
            };
            if blocked {
                Outcome { book: seen, events: seq![Err(Failed::AmendWouldCross(id))] }
            } else {
                let order = Order {
                    order_id: id,
                    order_asset: self.order_asset,
                    price_asset: self.price_asset,
                    side,
                    price,
                    qty,
                };
                Outcome {
                    book: seen.with_queue(side, own.amended(id, price, ts, order)),
                    events: seq![Ok(Success::Amended { id, price, qty, ts: now })],
                }
            }
        }
    }

    /// A cancellation withdraws the order resting under `id` on `side`.
    pub open spec fn after_cancel(self, id: u64, side: OrderSide, now: u64) -> Outcome<Asset> {
        let own = self.queue(side);
        Outcome {
            book: self.with_queue(side, own.cancelled(id)),
            events: if own.orders.contains_key(id) {
                seq![Ok(Success::Cancelled { id, ts: now })]
            } else {
                seq![Err(Failed::OrderNotFound(id))]
            },
        }
    }

    /// The best bid and the best ask price, where both sides have an order.
    pub open spec fn spread(self) -> Option<(u64, u64)> {
        match (self.bids.best_order(), self.asks.best_order()) {
            (Some(bid), Some(ask)) => Some((bid.price, ask.price)),
            _ => None,
        }
    }

    /// The book after a look at the spread: the bids are pruned, and the asks
    /// too where a bid was found.
    pub open spec fn after_spread(self) -> Self {
        if self.bids.best_order().is_some() {
            BookView { bids: self.bids.pruned(), asks: self.asks.pruned(), ..self }
        } else {
            BookView { bids: self.bids.pruned(), ..self }
        }
    }
}

impl<Asset> BookView<Asset> {
    /// A request that was found to break a rule changes nothing and is
    /// reported with the rule. Else a new order is accepted under the next id
    /// and then matched; an amendment or a cancellation goes to the queue of
    /// its side.
    pub open spec fn settled(
        self,
        request: OrderRequest<Asset>,
        checked: Result<(), ValidationError>,
        now: u64,
    ) -> Outcome<Asset> {
        match checked {
            Err(reason) => Outcome {
                book: self,
                events: seq![Err(Failed::ValidationFailed(reason))],
            },
            Ok(_) => match request {
                OrderRequest::NewMarketOrder { side, qty, .. } => {
                    let id = self.next_id;
                    let done = self.minted().after_market(id, side, qty, now);
                    Outcome {
                        book: done.book,
                        events: seq![
                            Ok(Success::Accepted { id, order_type: OrderType::Market, ts: now }),
                        ] + done.events,
                    }
                },
                OrderRequest::NewLimitOrder { order_asset, price_asset, side, price, qty, ts } => {
                    let id = self.next_id;
                    let done = self.minted().after_limit(
                        id,
                        order_asset,
                        price_asset,
                        side,
                        price,
                        qty,
                        ts,
                        now,
                    );
                    Outcome {
                        book: done.book,
                        events: seq![
                            Ok(Success::Accepted { id, order_type: OrderType::Limit, ts: now }),
                        ] + done.events,
                    }
                },
                OrderRequest::AmendOrder { id, side, price, qty, ts } => self.after_amend(
                    id,
                    side,
                    price,
                    qty,
                    ts,
                    now,
                ),
                OrderRequest::CancelOrder { id, side } => self.after_cancel(id, side, now),
            },
        }
    }
}

impl<Asset: PartialEq> BookView<Asset> {
    /// The book and the reports after `request`, held to the book's rules.
    pub open spec fn processed(self, request: OrderRequest<Asset>, now: u64) -> Outcome<Asset> {
        self.settled(request, self.rules().verdict(request), now)
    }
}

/// Limit order book for one pair of assets.
pub struct Orderbook<Asset> {
    pub order_asset: Asset,
    pub price_asset: Asset,
    pub bid_queue: OrderQueue<Order<Asset>>,
    pub ask_queue: OrderQueue<Order<Asset>>,
    pub seq: TradeSequence,
    pub order_validator: OrderRequestValidator<Asset>,
}

impl<Asset> View for Orderbook<Asset> {
    type V = BookView<Asset>;

    open spec fn view(&self) -> BookView<Asset> {
        BookView {
            order_asset: self.order_asset,
            price_asset: self.price_asset,
            bids: self.bid_queue@,
            asks: self.ask_queue@,
            next_id: self.seq.upcoming(),
        }
    }
}

impl<Asset: PartialEq + Copy> Orderbook<Asset> {
    /// Both queues are well formed and stand for their side, the ids rotate
    /// over the book's range, and the validator holds the book's rules.
    pub open spec fn wf(&self) -> bool {
        &&& self.bid_queue.wf()
        &&& self.bid_queue@.side == OrderSide::Bid
        &&& self.ask_queue.wf()
        &&& self.ask_queue@.side == OrderSide::Ask
        &&& self.seq.min() == MIN_SEQUENCE_ID
        &&& self.seq.max() == MAX_SEQUENCE_ID
        &&& self.seq.wf()
        &&& self.order_validator@ == self@.rules()
    }

    /// Create new orderbook for pair of assets
    pub fn new(order_asset: Asset, price_asset: Asset) -> (book: Self)
        ensures
            book.wf(),
            book@ == (BookView {
                order_asset,
                price_asset,
                bids: QueueView {
                    side: OrderSide::Bid,
                    entries: vstd::multiset::Multiset::empty(),
                    orders: Map::empty(),
                    stale_ops: 0,
                    max_stalled: MAX_STALLED_INDICES_IN_QUEUE,
                },
                asks: QueueView {
                    side: OrderSide::Ask,
                    entries: vstd::multiset::Multiset::empty(),
                    orders: Map::empty(),
                    stale_ops: 0,
                    max_stalled: MAX_STALLED_INDICES_IN_QUEUE,
                },
                next_id: MIN_SEQUENCE_ID,
            }),
            book@.inv(),
    {
        proof {
            lemma_empty_book::<Asset>(order_asset, price_asset);
        }
        Orderbook {
            order_asset,
            price_asset,
            bid_queue: OrderQueue::new(
                OrderSide::Bid,
                MAX_STALLED_INDICES_IN_QUEUE,
                ORDER_QUEUE_INIT_CAPACITY,
            ),
            ask_queue: OrderQueue::new(
                OrderSide::Ask,
                MAX_STALLED_INDICES_IN_QUEUE,
                ORDER_QUEUE_INIT_CAPACITY,
            ),
            seq: new_sequence_gen(MIN_SEQUENCE_ID, MAX_SEQUENCE_ID),
            order_validator: OrderRequestValidator::new(
                order_asset,
                price_asset,
                MIN_SEQUENCE_ID,
                MAX_SEQUENCE_ID,
            ),
        }
    }

    /// Handles one request and reports what happened, in the order it
    /// happened. Every report that carries a time carries one reading of the
    /// system clock, taken when the request comes in.
    ///
    /// Whatever the clock says, the request is handled as `process_order_at`
    /// handles it at that time.
    pub fn process_order(&mut self, order: OrderRequest<Asset>) -> (events: OrderProcessingResult)
        requires
            old(self).wf(),
        ensures
            final(self).wf(),
            exists|now: u64, order_asset_fits: bool, price_asset_fits: bool|
                {
                    &&& final(self)@ == (#[trigger] old(self)@.settled(
                        order,
                        old(self)@.rules().verdict_with(order, order_asset_fits, price_asset_fits),
                        now,
                    )).book
                    &&& events@ == old(self)@.settled(
                        order,
                        old(self)@.rules().verdict_with(order, order_asset_fits, price_asset_fits),
                        now,
                    ).events
                    &&& old(self)@.inv() && old(self)@.admits(
                        order,
                        old(self)@.rules().verdict_with(order, order_asset_fits, price_asset_fits),
                    ) ==> final(self)@.inv()
                },
            Asset::obeys_eq_spec() || order is AmendOrder || order is CancelOrder ==> {
                &&& exists|now: u64|
                    {
                        &&& final(self)@ == (#[trigger] old(self)@.processed(order, now)).book
                        &&& events@ == old(self)@.processed(order, now).events
                    }
                &&& old(self)@.inv() && old(self)@.admits(order, old(self)@.rules().verdict(order))
                    ==> final(self)@.inv()
            },
    {
        let now: u64 = clock::now();
        let events = self.process_order_at(order, now);
        proof {
            let (a, b) = choose|a: bool, b: bool|
                {
                    &&& self@ == old(self)@.settled(
                        order,
                        #[trigger] old(self)@.rules().verdict_with(order, a, b),
                        now,
                    ).book
                    &&& events@ == old(self)@.settled(
                        order,
                        old(self)@.rules().verdict_with(order, a, b),
                        now,
                    ).events
                    &&& old(self)@.inv() && old(self)@.admits(
                        order,
                        old(self)@.rules().verdict_with(order, a, b),
                    ) ==> self@.inv()
                };
            assert(self@ == old(self)@.settled(
                order,
                old(self)@.rules().verdict_with(order, a, b),
                now,
            ).book);
            if Asset::obeys_eq_spec() || order is AmendOrder || order is CancelOrder {
                assert(self@ == old(self)@.processed(order, now).book);
            }
        }
        events
    }

    /// Handles one request at the time `now` and reports what happened, in the
    /// order it happened. Every report that carries a time carries `now`.
    ///
    /// The assets of a new order are compared with those of the book by `==`.
    /// Whatever that comparison answers, the request is settled by the
    /// verdict for those answers; where `==` on `Asset` obeys its
    /// specification, that is the verdict for the request itself. A book in
    /// order that admits the request is in order afterwards.
    pub fn process_order_at(&mut self, order: OrderRequest<Asset>, now: u64) -> (events:
        OrderProcessingResult)
        requires
            old(self).wf(),
        ensures
            final(self).wf(),
            exists|order_asset_fits: bool, price_asset_fits: bool|
                {
                    &&& final(self)@ == old(self)@.settled(
                        order,
                        #[trigger] old(self)@.rules().verdict_with(
                            order,
                            order_asset_fits,
                            price_asset_fits,
                        ),
                        now,
                    ).book
                    &&& events@ == old(self)@.settled(
                        order,
                        old(self)@.rules().verdict_with(order, order_asset_fits, price_asset_fits),
                        now,
                    ).events
                    &&& old(self)@.inv() && old(self)@.admits(
                        order,
                        old(self)@.rules().verdict_with(order, order_asset_fits, price_asset_fits),
                    ) ==> final(self)@.inv()
                },
            Asset::obeys_eq_spec() || order is AmendOrder || order is CancelOrder ==> {
                &&& final(self)@ == old(self)@.processed(order, now).book
                &&& events@ == old(self)@.processed(order, now).events
                &&& old(self)@.inv() && old(self)@.admits(order, old(self)@.rules().verdict(order))
                    ==> final(self)@.inv()
            },
    {
        // validate request
        let checked = self.order_validator.validate(&order);
        let events = self.process_checked(order, checked, now);
        proof {
            let (a, b) = choose|a: bool, b: bool|
                checked == #[trigger] old(self)@.rules().verdict_with(order, a, b);
            if old(self)@.inv() && old(self)@.admits(order, checked) {
                lemma_settled(old(self)@, order, a, b, now);
            }
            assert(self@ == old(self)@.settled(
                order,
                old(self)@.rules().verdict_with(order, a, b),
                now,
            ).book);
        }
        events
    }

    /// Settles a request that was found to be in order, or to break a rule:
    /// the second is reported and changes nothing; the first is carried out.
    pub fn process_checked(
        &mut self,
        order: OrderRequest<Asset>,
        checked: Result<(), ValidationError>,
        now: u64,
    ) -> (events: OrderProcessingResult)
        requires
            old(self).wf(),
        ensures
            final(self).wf(),
            final(self)@ == old(self)@.settled(order, checked, now).book,
            events@ == old(self)@.settled(order, checked, now).events,
    {
        // processing result accumulator
        let mut proc_result: OrderProcessingResult = Vec::new();

        if let Err(reason) = checked {
            proc_result.push(Err(Failed::ValidationFailed(reason)));
            assert(proc_result@ =~= seq![Err(Failed::ValidationFailed(reason))]);
            return proc_result;
        }
        match order {
            OrderRequest::NewMarketOrder {
                order_asset: _order_asset,
                price_asset: _price_asset,
                side,
                qty,
                ts: _ts,
            } => {
                // generate new ID for order
                let order_id: u64 = self.seq.next_id();
                proc_result.push(
                    Ok(Success::Accepted { id: order_id, order_type: OrderType::Market, ts: now }),
                );
                assert(proc_result@ =~= seq![
                    Ok(Success::Accepted { id: order_id, order_type: OrderType::Market, ts: now }),
                ]);
                self.process_market_order(&mut proc_result, order_id, side, qty, now);
            },
            OrderRequest::NewLimitOrder { order_asset, price_asset, side, price, qty, ts } => {
                let order_id: u64 = self.seq.next_id();
                proc_result.push(
                    Ok(Success::Accepted { id: order_id, order_type: OrderType::Limit, ts: now }),
                );
                assert(proc_result@ =~= seq![
                    Ok(Success::Accepted { id: order_id, order_type: OrderType::Limit, ts: now }),
                ]);
                self.process_limit_order(
                    &mut proc_result,
                    order_id,
                    order_asset,
                    price_asset,
                    side,
                    price,
                    qty,
                    ts,
                    now,
                );
            },
            OrderRequest::AmendOrder { id, side, price, qty, ts } => {
                self.process_order_amend(&mut proc_result, id, side, price, qty, ts, now);
                assert(proc_result@ =~= old(self)@.after_amend(id, side, price, qty, ts, now).events);
            },
            OrderRequest::CancelOrder { id, side } => {
                self.process_order_cancel(&mut proc_result, id, side, now);
                assert(proc_result@ =~= old(self)@.after_cancel(id, side, now).events);
            },
        }

        // return collected processing results
        proc_result
    }

    /// Get current spread as a tuple: (bid, ask)
    pub fn current_spread(&mut self) -> (spread: Option<(u64, u64)>)
        requires
            old(self).wf(),
        ensures
            final(self).wf(),
            spread == old(self)@.spread(),
            final(self)@ == old(self)@.after_spread(),
            old(self)@.inv() ==> final(self)@.inv() && match spread {
                Some((bid, ask)) => bid < ask,
                None => true,
            },
    {
        proof {
            if old(self)@.inv() {
                lemma_spread_is_open(old(self)@);
            }
        }
        let bid: u64 = match self.bid_queue.peek() {
            Some(order) => order.price,
            None => {
                return None;
            },
        };
        let ask: u64 = match self.ask_queue.peek() {
            Some(order) => order.price,
            None => {
                return None;
            },
        };
        Some((bid, ask))
    }

    /// Looks at the best order of the side opposite to `side`.
    fn peek_opposite(&mut self, side: OrderSide) -> (first: Option<Order<Asset>>)
        requires
            old(self).wf(),
        ensures
            final(self).wf(),
            final(self)@ == old(self)@.peeked(side),
            first == old(self)@.queue(side.opposite()).best_order(),
    {
        match side {
            OrderSide::Bid => match self.ask_queue.peek() {
                Some(order) => Some(*order),
                None => None,
            },
            OrderSide::Ask => match self.bid_queue.peek() {
                Some(order) => Some(*order),
                None => None,
            },
        }
    }

    fn process_market_order(
        &mut self,
        results: &mut OrderProcessingResult,
        order_id: u64,
        side: OrderSide,
        qty: u64,
        now: u64,
    )
        requires
            old(self).wf(),
        ensures
            final(self).wf(),
            final(self)@ == old(self)@.after_market(order_id, side, qty, now).book,
            final(results)@ == old(results)@ + old(self)@.after_market(
                order_id,
                side,
                qty,
                now,
            ).events,
        decreases old(self)@.queue(side.opposite()).entries.len(),
    {
        // get copy of the current limit order
        let opposite_order_result: Option<Order<Asset>> = self.peek_opposite(side);
        if let Some(opposite_order) = opposite_order_result {
            let matching_complete: bool = self.order_matching(
                results,
                &opposite_order,
                order_id,
                OrderType::Market,
                side,
                qty,
                now,
            );
            if !matching_complete {
                proof {
                    lemma_popped(old(self)@.queue(side.opposite()));
                }
                // match the rest
                self.process_market_order(
                    results,
                    order_id,
                    side,
                    qty - opposite_order.qty,
                    now,
                );
            }
            proof {
                let expected = old(self)@.after_market(order_id, side, qty, now);
                assert(results@ =~= old(results)@ + expected.events);
                assert(self@ == expected.book);
            }
        } else {
            // no limit orders found
            results.push(Err(Failed::NoMatch(order_id)));
            proof {
                let expected = old(self)@.after_market(order_id, side, qty, now);
                assert(results@ =~= old(results)@ + expected.events);
            }
        }
    }

    fn process_limit_order(
        &mut self,
        results: &mut OrderProcessingResult,
        order_id: u64,
        order_asset: Asset,
        price_asset: Asset,
        side: OrderSide,
        price: u64,
        qty: u64,
        ts: u64,
        now: u64,
    )
        requires
            old(self).wf(),
        ensures
            final(self).wf(),
            final(self)@ == old(self)@.after_limit(
                order_id,
                order_asset,
                price_asset,
                side,
                price,
                qty,
                ts,
                now,
            ).book,
            final(results)@ == old(results)@ + old(self)@.after_limit(
                order_id,
                order_asset,
                price_asset,
                side,
                price,
                qty,
                ts,
                now,
            ).events,
        decreases old(self)@.queue(side.opposite()).entries.len(),
    {
        // take a look at current opposite limit order
        let opposite_order_result: Option<Order<Asset>> = self.peek_opposite(side);
        let ghost expected = old(self)@.after_limit(
            order_id,
            order_asset,
            price_asset,
            side,
            price,
            qty,
            ts,
            now,
        );
        if let Some(opposite_order) = opposite_order_result {
            let could_be_matched: bool = match side {
                // verify bid/ask price overlap
                OrderSide::Bid => price >= opposite_order.price,
                OrderSide::Ask => price <= opposite_order.price,
            };
            if could_be_matched {
                // match immediately
                let matching_complete: bool = self.order_matching(
                    results,
                    &opposite_order,
                    order_id,
                    OrderType::Limit,
                    side,
                    qty,
                    now,
                );
                if !matching_complete {
                    proof {
                        lemma_popped(old(self)@.queue(side.opposite()));
                    }
                    // process the rest of new limit order
                    self.process_limit_order(
                        results,
                        order_id,
                        order_asset,
                        price_asset,
                        side,
                        price,
                        qty - opposite_order.qty,
                        ts,
                        now,
                    );
                }
                proof {
                    assert(results@ =~= old(results)@ + expected.events);
                    assert(self@ == expected.book);
                }
            } else {
                // just insert new order in queue
                self.store_new_limit_order(
                    results,
                    order_id,
                    order_asset,
                    price_asset,
                    side,
                    price,
                    qty,
                    ts,
                );
                proof {
                    assert(results@ =~= old(results)@ + expected.events);
                    assert(self@ == expected.book);
                }
            }
        } else {
            self.store_new_limit_order(
                results,
                order_id,
                order_asset,
                price_asset,
                side,
                price,
                qty,
                ts,
            );
            proof {
                assert(results@ =~= old(results)@ + expected.events);
                assert(self@ == expected.book);
            }
        }
    }

    fn process_order_amend(
        &mut self,
        results: &mut OrderProcessingResult,
        order_id: u64,
        side: OrderSide,
        price: u64,
        qty: u64,
        ts: u64,
        now: u64,
    )
        requires
            old(self).wf(),
        ensures
            final(self).wf(),
            final(self)@ == old(self)@.after_amend(order_id, side, price, qty, ts, now).book,
            final(results)@ == old(results)@ + old(self)@.after_amend(
                order_id,
                side,
                price,
                qty,
                ts,
                now,
            ).events,
    {
        let resting: bool = match side {
            OrderSide::Bid => self.bid_queue.contains(order_id),
            OrderSide::Ask => self.ask_queue.contains(order_id),
        };
        if !resting {
            results.push(Err(Failed::OrderNotFound(order_id)));
            assert(results@ =~= old(results)@ + seq![Err(Failed::OrderNotFound(order_id))]);
            return ;
        }
        let would_cross: bool = match self.peek_opposite(side) {
            Some(opposite_order) => match side {
                OrderSide::Bid => price >= opposite_order.price,
                OrderSide::Ask => price <= opposite_order.price,
            },
            None => false,
        };
        if would_cross {
            results.push(Err(Failed::AmendWouldCross(order_id)));
            assert(results@ =~= old(results)@ + seq![Err(Failed::AmendWouldCross(order_id))]);
            return ;
        }
        let order = Order {
            order_id,
            order_asset: self.order_asset,
            price_asset: self.price_asset,
            side,
            price,
            qty,
        };
        let amended: bool = match side {
            OrderSide::Bid => self.bid_queue.amend(order_id, price, ts, order),
            OrderSide::Ask => self.ask_queue.amend(order_id, price, ts, order),
        };
        if amended {
            results.push(Ok(Success::Amended { id: order_id, price, qty, ts: now }));
            assert(results@ =~= old(results)@ + seq![
                Ok(Success::Amended { id: order_id, price, qty, ts: now }),
            ]);
        } else {
            results.push(Err(Failed::OrderNotFound(order_id)));
        }
    }

    fn process_order_cancel(
        &mut self,
        results: &mut OrderProcessingResult,
        order_id: u64,
        side: OrderSide,
        now: u64,
    )
        requires
            old(self).wf(),
        ensures
            final(self).wf(),
            final(self)@ == old(self)@.after_cancel(order_id, side, now).book,
            final(results)@ == old(results)@ + old(self)@.after_cancel(order_id, side, now).events,
    {
        let cancelled: bool = match side {
            OrderSide::Bid => self.bid_queue.cancel(order_id),
            OrderSide::Ask => self.ask_queue.cancel(order_id),
        };
        if cancelled {
            results.push(Ok(Success::Cancelled { id: order_id, ts: now }));
            assert(results@ =~= old(results)@ + seq![
                Ok(Success::Cancelled { id: order_id, ts: now }),
            ]);
        } else {
            results.push(Err(Failed::OrderNotFound(order_id)));
            assert(results@ =~= old(results)@ + seq![Err(Failed::OrderNotFound(order_id))]);
        }
    }

    fn store_new_limit_order(
        &mut self,
        results: &mut OrderProcessingResult,
        order_id: u64,
        order_asset: Asset,
        price_asset: Asset,
        side: OrderSide,
        price: u64,
        qty: u64,
        ts: u64,
    )
        requires
            old(self).wf(),
        ensures
            final(self).wf(),
            final(self)@ == old(self)@.stored(
                order_id,
                order_asset,
                price_asset,
                side,
                price,
                qty,
                ts,
            ).book,
            final(results)@ == old(results)@ + old(self)@.stored(
                order_id,
                order_asset,
                price_asset,
                side,
                price,
                qty,
                ts,
            ).events,
    {
        let order = Order { order_id, order_asset, price_asset, side, price, qty };
        let added: bool = match side {
            OrderSide::Bid => self.bid_queue.insert(order_id, price, ts, order),
            OrderSide::Ask => self.ask_queue.insert(order_id, price, ts, order),
        };
        if !added {
            results.push(Err(Failed::DuplicateOrderID(order_id)));
            assert(results@ =~= old(results)@ + seq![Err(Failed::DuplicateOrderID(order_id))]);
        } else {
            assert(results@ =~= old(results)@ + Seq::<Result<Success, Failed>>::empty());
        }
    }

    /// Makes one trade between the incoming order and the best resting order
    /// of the opposite side, which the caller has just looked at. Returns
    /// whether the incoming order is filled.
    fn order_matching(
        &mut self,
        results: &mut OrderProcessingResult,
        opposite_order: &Order<Asset>,
        order_id: u64,
        order_type: OrderType,
        side: OrderSide,
        qty: u64,
        now: u64,
    ) -> (complete: bool)
        requires
            old(self).wf(),
        ensures
            final(self).wf(),
            complete == (qty <= opposite_order.qty),
            final(self)@ == old(self)@.with_queue(
                side.opposite(),
                trade_queue(old(self)@.queue(side.opposite()), qty, *opposite_order),
            ),
            final(results)@ == old(results)@ + trade_events(
                order_id,
                side,
                order_type,
                qty,
                *opposite_order,
                now,
            ),
    {
        // match immediately
        if qty < opposite_order.qty {
            // fill new limit and modify opposite limit
            // report filled new order
            results.push(
                Ok(
                    Success::Filled {
                        order_id,
                        side,
                        order_type,
                        price: opposite_order.price,
                        qty,
                        ts: now,
                    },
                ),
            );
            // report partially filled opposite limit order
            results.push(
                Ok(
                    Success::PartiallyFilled {
                        order_id: opposite_order.order_id,
                        side: opposite_order.side,
                        order_type: OrderType::Limit,
                        price: opposite_order.price,
                        qty,
                        ts: now,
                    },
                ),
            );
            // modify unmatched part of the opposite limit order
            let remaining = Order {
                order_id: opposite_order.order_id,
                order_asset: opposite_order.order_asset,
                price_asset: opposite_order.price_asset,
                side: opposite_order.side,
                price: opposite_order.price,
                qty: opposite_order.qty - qty,
            };
            match side {
                OrderSide::Bid => {
                    self.ask_queue.modify_current_order(remaining);
                },
                OrderSide::Ask => {
                    self.bid_queue.modify_current_order(remaining);
                },
            }
            assert(results@ =~= old(results)@ + trade_events(
                order_id,
                side,
                order_type,
                qty,
                *opposite_order,
                now,
            ));
            true
        } else if qty > opposite_order.qty {
            // partially fill new limit order, fill opposite limit and notify to process the rest
            // report new order partially filled
            results.push(
                Ok(
                    Success::PartiallyFilled {
                        order_id,
                        side,
                        order_type,
                        price: opposite_order.price,
                        qty: opposite_order.qty,
                        ts: now,
                    },
                ),
            );
            // report filled opposite limit order
            results.push(
                Ok(
                    Success::Filled {
                        order_id: opposite_order.order_id,
                        side: opposite_order.side,
                        order_type: OrderType::Limit,
                        price: opposite_order.price,
                        qty: opposite_order.qty,
                        ts: now,
                    },
                ),
            );
            // remove filled limit order from the queue
            match side {
                OrderSide::Bid => {
                    self.ask_queue.pop();
                },
                OrderSide::Ask => {
                    self.bid_queue.pop();
                },
            }
            assert(results@ =~= old(results)@ + trade_events(
                order_id,
                side,
                order_type,
                qty,
                *opposite_order,
                now,
            ));
            // matching incomplete
            false
        } else {
            // orders exactly match -> fill both and remove old limit
            // report filled new order
            results.push(
                Ok(
                    Success::Filled {
                        order_id,
                        side,
                        order_type,
                        price: opposite_order.price,
                        qty,
                        ts: now,
                    },
                ),
            );
            // report filled opposite limit order
            results.push(
                Ok(
                    Success::Filled {
                        order_id: opposite_order.order_id,
                        side: opposite_order.side,
                        order_type: OrderType::Limit,
                        price: opposite_order.price,
                        qty,
                        ts: now,
                    },
                ),
            );
            // remove filled limit order from the queue
            match side {
                OrderSide::Bid => {
                    self.ask_queue.pop();
                },
                OrderSide::Ask => {
                    self.bid_queue.pop();
                },
            }
            assert(results@ =~= old(results)@ + trade_events(
                order_id,
                side,
                order_type,
                qty,
                *opposite_order,
                now,
            ));
            true
        }
    }
}

} // verus!
