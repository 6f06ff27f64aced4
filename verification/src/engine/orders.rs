use vstd::prelude::*;

use super::domain::OrderSide;

verus! {

/// A client request against the book. Prices and quantities are counted in
/// ticks and lots; timestamps are ordered tokens chosen by the client.
#[derive(Debug, Copy, Clone)]
pub enum OrderRequest<Asset> {
    NewMarketOrder { order_asset: Asset, price_asset: Asset, side: OrderSide, qty: u64, ts: u64 },
    NewLimitOrder {
        order_asset: Asset,
        price_asset: Asset,
        side: OrderSide,
        price: u64,
        qty: u64,
        ts: u64,
    },
    AmendOrder { id: u64, side: OrderSide, price: u64, qty: u64, ts: u64 },
    CancelOrder { id: u64, side: OrderSide },
}

/// Create request for the new market order
pub fn new_market_order_request<Asset>(
    order_asset: Asset,
    price_asset: Asset,
    side: OrderSide,
    qty: u64,
    ts: u64,
) -> (request: OrderRequest<Asset>)
    ensures
        request == (OrderRequest::NewMarketOrder { order_asset, price_asset, side, qty, ts }),
{
    OrderRequest::NewMarketOrder { order_asset, price_asset, qty, side, ts }
}

/// Create request for the new limit order
pub fn new_limit_order_request<Asset>(
    order_asset: Asset,
    price_asset: Asset,
    side: OrderSide,
    price: u64,
    qty: u64,
    ts: u64,
) -> (request: OrderRequest<Asset>)
    ensures
        request == (OrderRequest::NewLimitOrder { order_asset, price_asset, side, price, qty, ts }),
{
    OrderRequest::NewLimitOrder { order_asset, price_asset, side, price, qty, ts }
}

/// Create request for changing price/qty for the active limit order.
///
/// Note: do not change order side!
/// Instead cancel existing order and create a new one.
pub fn amend_order_request<Asset>(id: u64, side: OrderSide, price: u64, qty: u64, ts: u64) -> (request:
    OrderRequest<Asset>)
    ensures
        request == (OrderRequest::<Asset>::AmendOrder { id, side, price, qty, ts }),
{
    OrderRequest::AmendOrder { id, side, price, qty, ts }
}

/// Create request for cancelling active limit order
pub fn limit_order_cancel_request<Asset>(order_id: u64, side: OrderSide) -> (request: OrderRequest<
    Asset,
>)
    ensures
        request == (OrderRequest::<Asset>::CancelOrder { id: order_id, side }),
{
    OrderRequest::CancelOrder { id: order_id, side }
}

} // verus!
