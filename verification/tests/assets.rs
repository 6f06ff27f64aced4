use orderbook::assets::{can_trade, parse_asset, Asset};
use orderbook::{OrderRequestValidator, ValidationError};
use orderbook::orders;
use orderbook::OrderSide;

#[test]
fn parse_asset_known_symbols() {
    assert_eq!(parse_asset("USD"), Some(Asset::USD));
    assert_eq!(parse_asset("EUR"), Some(Asset::EUR));
    assert_eq!(parse_asset("BTC"), Some(Asset::BTC));
    assert_eq!(parse_asset("ETH"), Some(Asset::ETH));
    assert_eq!(parse_asset("OTN"), Some(Asset::OTN));
}

#[test]
fn parse_asset_unknown_symbols() {
    assert_eq!(parse_asset(""), None);
    assert_eq!(parse_asset("usd"), None);
    assert_eq!(parse_asset("USDT"), None);
    assert_eq!(parse_asset("US"), None);
    assert_eq!(parse_asset("XRP"), None);
    assert_eq!(parse_asset("BT\u{441}"), None);
}

#[test]
fn can_trade_table() {
    let all = [Asset::USD, Asset::EUR, Asset::BTC, Asset::ETH, Asset::OTN];
    for from in all.iter() {
        assert!(can_trade(from, &Asset::USD));
        assert!(can_trade(from, &Asset::EUR));
        assert!(can_trade(from, &Asset::BTC));
    }
    assert!(can_trade(&Asset::BTC, &Asset::ETH));
    assert!(can_trade(&Asset::BTC, &Asset::OTN));
    assert!(!can_trade(&Asset::USD, &Asset::ETH));
    assert!(!can_trade(&Asset::EUR, &Asset::OTN));
    assert!(!can_trade(&Asset::ETH, &Asset::ETH));
    assert!(!can_trade(&Asset::OTN, &Asset::ETH));
    assert!(!can_trade(&Asset::ETH, &Asset::OTN));
}

#[test]
fn validator_reports_first_broken_rule() {
    let validator = OrderRequestValidator::new(Asset::BTC, Asset::USD, 10, 20);
    let ok = orders::new_limit_order_request(Asset::BTC, Asset::USD, OrderSide::Bid, 1, 1, 0);
    assert_eq!(validator.validate(&ok), Ok(()));
    let both = orders::new_limit_order_request(Asset::ETH, Asset::EUR, OrderSide::Bid, 0, 0, 0);
    assert_eq!(validator.validate(&both), Err(ValidationError::BadOrderAsset));
    let price_asset =
        orders::new_limit_order_request(Asset::BTC, Asset::EUR, OrderSide::Bid, 0, 0, 0);
    assert_eq!(validator.validate(&price_asset), Err(ValidationError::BadPriceAsset));
    let price = orders::new_limit_order_request(Asset::BTC, Asset::USD, OrderSide::Bid, 0, 0, 0);
    assert_eq!(validator.validate(&price), Err(ValidationError::BadPriceValue));
    let qty = orders::new_limit_order_request(Asset::BTC, Asset::USD, OrderSide::Bid, 1, 0, 0);
    assert_eq!(validator.validate(&qty), Err(ValidationError::BadQuantityValue));
    let market = orders::new_market_order_request(Asset::BTC, Asset::USD, OrderSide::Ask, 0, 0);
    assert_eq!(validator.validate(&market), Err(ValidationError::BadQuantityValue));
}

#[test]
fn validator_checks_id_range() {
    let validator = OrderRequestValidator::new(Asset::BTC, Asset::USD, 10, 20);
    assert_eq!(validator.validate_cancel(9), Err(ValidationError::BadSequenceId));
    assert_eq!(validator.validate_cancel(10), Ok(()));
    assert_eq!(validator.validate_cancel(20), Ok(()));
    assert_eq!(validator.validate_cancel(21), Err(ValidationError::BadSequenceId));
    let amend = orders::amend_order_request::<Asset>(9, OrderSide::Bid, 1, 1, 0);
    assert_eq!(validator.validate(&amend), Err(ValidationError::BadSequenceId));
    let amend = orders::amend_order_request::<Asset>(15, OrderSide::Bid, 1, 1, 0);
    assert_eq!(validator.validate(&amend), Ok(()));
    let cancel = orders::limit_order_cancel_request::<Asset>(21, OrderSide::Bid);
    assert_eq!(validator.validate(&cancel), Err(ValidationError::BadSequenceId));
}

#[test]
fn validation_error_messages() {
    assert_eq!(ValidationError::BadOrderAsset.message(), "bad order asset");
    assert_eq!(ValidationError::BadPriceAsset.message(), "bad price asset");
    assert_eq!(ValidationError::BadPriceValue.message(), "price must be non-negative");
    assert_eq!(ValidationError::BadQuantityValue.message(), "quantity must be non-negative");
    assert_eq!(ValidationError::BadSequenceId.message(), "order ID out of range");
}

#[test]
fn asset_equality() {
    let all = [Asset::USD, Asset::EUR, Asset::BTC, Asset::ETH, Asset::OTN];
    for (i, a) in all.iter().enumerate() {
        for (j, b) in all.iter().enumerate() {
            assert_eq!(a == b, i == j);
            assert_eq!(a != b, i != j);
        }
    }
}
