//! An order execution engine: limit-order books with price-time priority
//! matching, and a single-writer dispatcher that keeps execution metrics.
pub mod engine;
pub mod ladder;
pub mod matching;
pub mod types;

pub use engine::{EngineCommand, EngineError, ExecutionEngine};
pub use matching::OrderBook;
pub use types::{ExecutionMetrics, Order, OrderStatus, OrderType, Side, Trade};
