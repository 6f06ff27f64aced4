pub mod assets;
pub mod clock;
pub mod domain;
pub mod index_heap;
pub mod invariants;
pub mod order_queues;
pub mod orderbook;
pub mod orders;
pub mod sequence;
pub mod validation;
