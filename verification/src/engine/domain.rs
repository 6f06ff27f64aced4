use vstd::prelude::*;

verus! {

/// Side of the book an order belongs to.
#[derive(Debug, Copy, Clone, PartialEq, Eq, Structural)]
pub enum OrderSide {
    Bid,
    Ask,
}

impl OrderSide {
    /// The side that orders of this side trade against.
    pub open spec fn spec_opposite(self) -> OrderSide {
        match self {
            OrderSide::Bid => OrderSide::Ask,
            OrderSide::Ask => OrderSide::Bid,
        }
    }

    /// The side that orders of this side trade against.
    #[verifier::when_used_as_spec(spec_opposite)]
    pub fn opposite(self) -> (other: OrderSide)
        ensures
            other == self.spec_opposite(),
    {
        match self {
            OrderSide::Bid => OrderSide::Ask,
            OrderSide::Ask => OrderSide::Bid,
        }
    }
}

/// A resting limit order. Price and quantity are counted in ticks and lots.
#[derive(Debug, Copy, Clone)]
pub struct Order<Asset> {
    pub order_id: u64,
    pub order_asset: Asset,
    pub price_asset: Asset,
    pub side: OrderSide,
    pub price: u64,
    pub qty: u64,
}

/// How an order takes part in matching.
#[derive(Eq, PartialEq, Debug, Copy, Clone, Structural)]
pub enum OrderType {
    Market,
    Limit,
}

} // verus!
