use vstd::prelude::*;
use vstd::std_specs::cmp::PartialEqSpec;

use super::orders::OrderRequest;

verus! {

/// Why a request was turned down before it reached the book.
#[derive(Debug, Copy, Clone, PartialEq, Eq, Structural)]
pub enum ValidationError {
    BadOrderAsset,
    BadPriceAsset,
    BadPriceValue,
    BadQuantityValue,
    BadSequenceId,
}

impl ValidationError {
    /// The reason in words.
    pub fn message(&self) -> (text: &'static str)
        ensures
            text@ == (match *self {
                ValidationError::BadOrderAsset => "bad order asset"@,
                ValidationError::BadPriceAsset => "bad price asset"@,
                ValidationError::BadPriceValue => "price must be non-negative"@,
                ValidationError::BadQuantityValue => "quantity must be non-negative"@,
                ValidationError::BadSequenceId => "order ID out of range"@,
            }),
    {
        match self {
            ValidationError::BadOrderAsset => "bad order asset",
            ValidationError::BadPriceAsset => "bad price asset",
            ValidationError::BadPriceValue => "price must be non-negative",
            ValidationError::BadQuantityValue => "quantity must be non-negative",
            ValidationError::BadSequenceId => "order ID out of range",
        }
    }
}

/// The rules a request is held to: the pair the book trades and the range of
/// order ids.
pub struct ValidatorView<Asset> {
    pub order_asset: Asset,
    pub price_asset: Asset,
    pub min_sequence_id: u64,
    pub max_sequence_id: u64,
}

impl<Asset> ValidatorView<Asset> {
    /// The first rule that a price and a quantity break: the price, where one
    /// is given, is checked before the quantity.
    pub open spec fn amount_verdict(price: Option<u64>, qty: u64) -> Result<(), ValidationError> {
        if price == Some(0u64) {
            Err(ValidationError::BadPriceValue)
        } else if qty == 0 {
            Err(ValidationError::BadQuantityValue)
        } else {
            Ok(())
        }
    }

    /// The first rule that a new order breaks, given whether its assets are
    /// those of the book: the order asset is checked before the price asset,
    /// and both before the amounts.
    pub open spec fn new_order_verdict(
        order_asset_fits: bool,
        price_asset_fits: bool,
        price: Option<u64>,
        qty: u64,
    ) -> Result<(), ValidationError> {
        if !order_asset_fits {
            Err(ValidationError::BadOrderAsset)
        } else if !price_asset_fits {
            Err(ValidationError::BadPriceAsset)
        } else {
            Self::amount_verdict(price, qty)
        }
    }

    /// Whether `id` lies in the range of order ids.
    pub open spec fn id_verdict(self, id: u64) -> Result<(), ValidationError> {
        if self.min_sequence_id <= id <= self.max_sequence_id {
            Ok(())
        } else {
            Err(ValidationError::BadSequenceId)
        }
    }

    /// The first rule that an amendment breaks: the amounts are checked
    /// before the id.
    pub open spec fn amend_verdict(self, id: u64, price: u64, qty: u64) -> Result<
        (),
        ValidationError,
    > {
        if Self::amount_verdict(Some(price), qty).is_err() {
            Self::amount_verdict(Some(price), qty)
        } else {
            self.id_verdict(id)
        }
    }

    /// The first rule that `request` breaks, in the order: order asset, price
    /// asset, price, quantity, order id, given whether the assets of a new
    /// order are those of the book.
    pub open spec fn verdict_with(
        self,
        request: OrderRequest<Asset>,
        order_asset_fits: bool,
        price_asset_fits: bool,
    ) -> Result<(), ValidationError> {
        match request {
            OrderRequest::NewMarketOrder { qty, .. } => Self::new_order_verdict(
                order_asset_fits,
                price_asset_fits,
                None,
                qty,
            ),
            OrderRequest::NewLimitOrder { price, qty, .. } => Self::new_order_verdict(
                order_asset_fits,
                price_asset_fits,
                Some(price),
                qty,
            ),
            OrderRequest::AmendOrder { id, price, qty, .. } => self.amend_verdict(id, price, qty),
            OrderRequest::CancelOrder { id, .. } => self.id_verdict(id),
        }
    }
}

impl<Asset: PartialEq> ValidatorView<Asset> {
    /// The first rule that `request` breaks, where the assets of a new order
    /// are compared with those of the book by `==`.
    pub open spec fn verdict(self, request: OrderRequest<Asset>) -> Result<(), ValidationError> {
        match request {
            OrderRequest::NewMarketOrder { order_asset, price_asset, .. } => self.verdict_with(
                request,
                self.order_asset.eq_spec(&order_asset),
                self.price_asset.eq_spec(&price_asset),
            ),
            OrderRequest::NewLimitOrder { order_asset, price_asset, .. } => self.verdict_with(
                request,
                self.order_asset.eq_spec(&order_asset),
                self.price_asset.eq_spec(&price_asset),
            ),
            _ => self.verdict_with(request, true, true),
        }
    }
}

/// Checks requests against the pair a book trades and its range of order ids.
pub struct OrderRequestValidator<Asset> {
    orderbook_order_asset: Asset,
    orderbook_price_asset: Asset,
    min_sequence_id: u64,
    max_sequence_id: u64,
}

impl<Asset> View for OrderRequestValidator<Asset> {
    type V = ValidatorView<Asset>;

    closed spec fn view(&self) -> ValidatorView<Asset> {
        ValidatorView {
            order_asset: self.orderbook_order_asset,
            price_asset: self.orderbook_price_asset,
            min_sequence_id: self.min_sequence_id,
            max_sequence_id: self.max_sequence_id,
        }
    }
}

impl<Asset: PartialEq + Copy> OrderRequestValidator<Asset> {
    /// A validator for the pair `orderbook_order_asset` / `orderbook_price_asset`
    /// and the ids from `min_sequence_id` to `max_sequence_id`.
    pub fn new(
        orderbook_order_asset: Asset,
        orderbook_price_asset: Asset,
        min_sequence_id: u64,
        max_sequence_id: u64,
    ) -> (validator: Self)
        ensures
            validator@ == (ValidatorView {
                order_asset: orderbook_order_asset,
                price_asset: orderbook_price_asset,
                min_sequence_id,
                max_sequence_id,
            }),
    {
        OrderRequestValidator {
            orderbook_order_asset,
            orderbook_price_asset,
            min_sequence_id,
            max_sequence_id,
        }
    }

    /// Returns the first rule that `request` breaks. The assets of a new
    /// order are compared with those of the book by `==`; whatever that
    /// comparison answers, the result is the verdict for those answers. It
    /// is the verdict for the request itself where `==` on `Asset` obeys its
    /// specification; amend and cancel requests name no asset.
    pub fn validate(&self, request: &OrderRequest<Asset>) -> (checked: Result<(), ValidationError>)
        ensures
            exists|order_asset_fits: bool, price_asset_fits: bool|
                checked == #[trigger] self@.verdict_with(
                    *request,
                    order_asset_fits,
                    price_asset_fits,
                ),
            Asset::obeys_eq_spec() || request is AmendOrder || request is CancelOrder ==> checked
                == self@.verdict(*request),
    {
        match *request {
            OrderRequest::NewMarketOrder { order_asset, price_asset, side: _side, qty, ts: _ts } => {
                let checked = self.validate_market(order_asset, price_asset, qty);
                proof {
                    let (a, b) = choose|a: bool, b: bool|
                        checked == #[trigger] ValidatorView::<Asset>::new_order_verdict(
                            a,
                            b,
                            None,
                            qty,
                        );
                    assert(checked == self@.verdict_with(*request, a, b));
                }
                checked
            },
            OrderRequest::NewLimitOrder {
                order_asset,
                price_asset,
                side: _side,
                price,
                qty,
                ts: _ts,
            } => {
                let checked = self.validate_limit(order_asset, price_asset, price, qty);
                proof {
                    let (a, b) = choose|a: bool, b: bool|
                        checked == #[trigger] ValidatorView::<Asset>::new_order_verdict(
                            a,
                            b,
                            Some(price),
                            qty,
                        );
                    assert(checked == self@.verdict_with(*request, a, b));
                }
                checked
            },
            OrderRequest::AmendOrder { id, price, side: _side, qty, ts: _ts } => {
                let checked = self.validate_amend(id, price, qty);
                assert(checked == self@.verdict_with(*request, true, true));
                checked
            },
            OrderRequest::CancelOrder { id, side: _side } => {
                let checked = self.validate_cancel(id);
                assert(checked == self@.verdict_with(*request, true, true));
                checked
            },
        }
    }

    /// Checks the pair and the quantity of a market order.
    fn validate_market(&self, order_asset: Asset, price_asset: Asset, qty: u64) -> (checked: Result<
        (),
        ValidationError,
    >)
        ensures
            exists|order_asset_fits: bool, price_asset_fits: bool|
                checked == #[trigger] ValidatorView::<Asset>::new_order_verdict(
                    order_asset_fits,
                    price_asset_fits,
                    None,
                    qty,
                ),
            Asset::obeys_eq_spec() ==> checked == ValidatorView::<Asset>::new_order_verdict(
                self@.order_asset.eq_spec(&order_asset),
                self@.price_asset.eq_spec(&price_asset),
                None,
                qty,
            ),
    {
        let order_asset_differs: bool = self.orderbook_order_asset != order_asset;
        if order_asset_differs {
            assert(Err::<(), ValidationError>(ValidationError::BadOrderAsset)
                == ValidatorView::<Asset>::new_order_verdict(false, true, None, qty));
            return Err(ValidationError::BadOrderAsset);
        }
        let price_asset_differs: bool = self.orderbook_price_asset != price_asset;
        if price_asset_differs {
            assert(Err::<(), ValidationError>(ValidationError::BadPriceAsset)
                == ValidatorView::<Asset>::new_order_verdict(true, false, None, qty));
            return Err(ValidationError::BadPriceAsset);
        }
        if qty == 0 {
            assert(Err::<(), ValidationError>(ValidationError::BadQuantityValue)
                == ValidatorView::<Asset>::new_order_verdict(true, true, None, qty));
            return Err(ValidationError::BadQuantityValue);
        }
        assert(Ok::<(), ValidationError>(()) == ValidatorView::<Asset>::new_order_verdict(
            true,
            true,
            None,
            qty,
        ));
        Ok(())
    }

    /// Checks the pair, the price and the quantity of a limit order.
    fn validate_limit(
        &self,
        order_asset: Asset,
        price_asset: Asset,
        price: u64,
        qty: u64,
    ) -> (checked: Result<(), ValidationError>)
        ensures
            exists|order_asset_fits: bool, price_asset_fits: bool|
                checked == #[trigger] ValidatorView::<Asset>::new_order_verdict(
                    order_asset_fits,
                    price_asset_fits,
                    Some(price),
                    qty,
                ),
            Asset::obeys_eq_spec() ==> checked == ValidatorView::<Asset>::new_order_verdict(
                self@.order_asset.eq_spec(&order_asset),
                self@.price_asset.eq_spec(&price_asset),
                Some(price),
                qty,
            ),
    {
        let order_asset_differs: bool = self.orderbook_order_asset != order_asset;
        if order_asset_differs {
            assert(Err::<(), ValidationError>(ValidationError::BadOrderAsset)
                == ValidatorView::<Asset>::new_order_verdict(false, true, Some(price), qty));
            return Err(ValidationError::BadOrderAsset);
        }
        let price_asset_differs: bool = self.orderbook_price_asset != price_asset;
        if price_asset_differs {
            assert(Err::<(), ValidationError>(ValidationError::BadPriceAsset)
                == ValidatorView::<Asset>::new_order_verdict(true, false, Some(price), qty));
            return Err(ValidationError::BadPriceAsset);
        }
        if price == 0 {
            assert(Err::<(), ValidationError>(ValidationError::BadPriceValue)
                == ValidatorView::<Asset>::new_order_verdict(true, true, Some(price), qty));
            return Err(ValidationError::BadPriceValue);
        }
        if qty == 0 {
            assert(Err::<(), ValidationError>(ValidationError::BadQuantityValue)
                == ValidatorView::<Asset>::new_order_verdict(true, true, Some(price), qty));
            return Err(ValidationError::BadQuantityValue);
        }
        assert(Ok::<(), ValidationError>(()) == ValidatorView::<Asset>::new_order_verdict(
            true,
            true,
            Some(price),
            qty,
        ));
        Ok(())
    }

    /// Checks the price, the quantity and the id of an amendment.
    fn validate_amend(&self, id: u64, price: u64, qty: u64) -> (checked: Result<
        (),
        ValidationError,
    >)
        ensures
            checked == self@.amend_verdict(id, price, qty),
    {
        if price == 0 {
            return Err(ValidationError::BadPriceValue);
        }
        if qty == 0 {
            return Err(ValidationError::BadQuantityValue);
        }
        if self.min_sequence_id > id || self.max_sequence_id < id {
            return Err(ValidationError::BadSequenceId);
        }
        Ok(())
    }

    /// Checks the id of a cancellation.
    pub fn validate_cancel(&self, id: u64) -> (checked: Result<(), ValidationError>)
        ensures
            checked == self@.id_verdict(id),
    {
        if self.min_sequence_id > id || self.max_sequence_id < id {
            return Err(ValidationError::BadSequenceId);
        }
        Ok(())
    }
}

} // verus!
