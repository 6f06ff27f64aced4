//! A single-instrument limit order book with price-time priority matching.
//!
//! Prices and quantities are unsigned fixed-point integers (ticks and lots).
//! The timestamp of a request is an ordered token chosen by the embedder; the
//! reports of a request carry a reading of the system clock in nanoseconds.

pub mod engine;

pub use engine::assets;
pub use engine::clock;
pub use engine::domain::{Order, OrderSide, OrderType};
pub use engine::order_queues::OrderQueue;
pub use engine::orderbook::{Failed, Orderbook, OrderProcessingResult, Success};
pub use engine::orders;
pub use engine::sequence;
pub use engine::validation::{OrderRequestValidator, ValidationError};
