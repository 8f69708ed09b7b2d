//! Orders, trades and metrics, with prices held as integer ticks.
use vstd::prelude::*;

verus! {

/// Number of ticks in one unit of quoted price (two decimal places).
pub const PRICE_SCALE: u64 = 100;

/// Order side.
#[derive(Clone, Copy, Debug, PartialEq, Eq, Structural)]
pub enum Side {
    Buy,
    Sell,
}

impl Side {
    /// The side's label, `BUY` or `SELL`.
    pub fn label(&self) -> (r: &'static str)
        ensures
            *self == Side::Buy ==> r@ == "BUY"@,
            *self == Side::Sell ==> r@ == "SELL"@,
    {
        match self {
            Side::Buy => "BUY",
            Side::Sell => "SELL",
        }
    }
}

/// Order type. Only `Market` and `Limit` are executed; the others are refused.
#[derive(Clone, Copy, Debug, PartialEq, Eq, Structural)]
pub enum OrderType {
    Market,
    Limit,
    StopLoss,
    StopLimit,
}

/// Lifecycle state of an order.
#[derive(Clone, Copy, Debug, PartialEq, Eq, Structural)]
pub enum OrderStatus {
    Pending,
    PartiallyFilled,
    Filled,
    Cancelled,
    Rejected,
}

/// An order: an identity plus its fill state.
#[derive(Clone, Debug)]
pub struct Order {
    pub id: u128,
    pub symbol: String,
    pub side: Side,
    pub order_type: OrderType,
    pub quantity: u64,
    /// Limit price in ticks; absent for market orders.
    pub price: Option<u64>,
    pub stop_price: Option<u64>,
    pub filled_quantity: u64,
    pub status: OrderStatus,
    /// Time of creation, in microseconds since the Unix epoch.
    pub timestamp: i64,
    pub client_id: String,
    /// Arrival number given by the book that rests the order.
    pub sequence: u64,
}

/// Remaining quantity of an order, as an integer that may not be negative.
pub open spec fn remaining(o: Order) -> int {
    if o.filled_quantity <= o.quantity {
        o.quantity - o.filled_quantity
    } else {
        0
    }
}

/// Relies on uuid::Uuid::new_v4: a random 128-bit identifier.
#[verifier::external_body]
fn fresh_id() -> (r: u128) {
    uuid::Uuid::new_v4().as_u128()
}

/// Relies on chrono::Utc::now and DateTime::timestamp_micros: the wall clock.
#[verifier::external_body]
fn now_micros() -> (r: i64) {
    chrono::Utc::now().timestamp_micros()
}

impl Order {
    /// A new market order, pending and unfilled.
    pub fn new_market(symbol: String, side: Side, quantity: u64, client_id: String) -> (r: Order)
        ensures
            r.symbol == symbol,
            r.side == side,
            r.order_type == OrderType::Market,
            r.quantity == quantity,
            r.price.is_none(),
            r.stop_price.is_none(),
            r.filled_quantity == 0,
            r.status == OrderStatus::Pending,
            r.client_id == client_id,
            r.sequence == 0,
    {
        Order {
            id: fresh_id(),
            symbol,
            side,
            order_type: OrderType::Market,
            quantity,
            price: None,
            stop_price: None,
            filled_quantity: 0,
            status: OrderStatus::Pending,
            timestamp: now_micros(),
            client_id,
            sequence: 0,
        }
    }

    /// A new limit order at `price` ticks, pending and unfilled.
    pub fn new_limit(symbol: String, side: Side, quantity: u64, price: u64, client_id: String) -> (r:
        Order)
        ensures
            r.symbol == symbol,
            r.side == side,
            r.order_type == OrderType::Limit,
            r.quantity == quantity,
            r.price == Some(price),
            r.stop_price.is_none(),
            r.filled_quantity == 0,
            r.status == OrderStatus::Pending,
            r.client_id == client_id,
            r.sequence == 0,
    {
        Order {
            id: fresh_id(),
            symbol,
            side,
            order_type: OrderType::Limit,
            quantity,
            price: Some(price),
            stop_price: None,
            filled_quantity: 0,
            status: OrderStatus::Pending,
            timestamp: now_micros(),
            client_id,
            sequence: 0,
        }
    }

    pub fn remaining_quantity(&self) -> (r: u64)
        ensures
            r == remaining(*self),
    {
        self.quantity.saturating_sub(self.filled_quantity)
    }

    pub fn is_fully_filled(&self) -> (r: bool)
        ensures
            r == (self.filled_quantity >= self.quantity),
    {
        self.filled_quantity >= self.quantity
    }
}

/// A trade between a buy order and a sell order.
#[derive(Clone, Debug)]
pub struct Trade {
    pub id: u128,
    pub buy_order_id: u128,
    pub sell_order_id: u128,
    pub symbol: String,
    pub quantity: u64,
    /// Price in ticks.
    pub price: u64,
    /// Time of execution, in microseconds since the Unix epoch.
    pub timestamp: i64,
}

/// What a trade records of a match: the two orders, the quantity and the price.
pub ghost struct Fill {
    pub buy_order_id: u128,
    pub sell_order_id: u128,
    pub quantity: u64,
    pub price: u64,
}

impl Trade {
    pub open spec fn fill(self) -> Fill {
        Fill {
            buy_order_id: self.buy_order_id,
            sell_order_id: self.sell_order_id,
            quantity: self.quantity,
            price: self.price,
        }
    }

    pub fn new(buy_order_id: u128, sell_order_id: u128, symbol: String, quantity: u64, price: u64) -> (r:
        Trade)
        ensures
            r.buy_order_id == buy_order_id,
            r.sell_order_id == sell_order_id,
            r.symbol == symbol,
            r.quantity == quantity,
            r.price == price,
    {
        Trade {
            id: fresh_id(),
            buy_order_id,
            sell_order_id,
            symbol,
            quantity,
            price,
            timestamp: now_micros(),
        }
    }
}

/// The fills recorded by a sequence of trades.
pub open spec fn fills_of(ts: Seq<Trade>) -> Seq<Fill> {
    ts.map_values(|t: Trade| t.fill())
}

/// Execution counters and latency percentiles.
#[derive(Clone, Copy, Debug, PartialEq, Eq, Structural)]
pub struct ExecutionMetrics {
    pub total_orders: u64,
    pub filled_orders: u64,
    pub cancelled_orders: u64,
    pub rejected_orders: u64,
    pub total_trades: u64,
    /// Sum of quantity times price (in ticks) over all trades.
    pub total_notional: u128,
    pub avg_latency_micros: u64,
    pub p50_latency_micros: u64,
    pub p95_latency_micros: u64,
    pub p99_latency_micros: u64,
}

impl ExecutionMetrics {
    /// Every counter of `self` is at least the same counter of `before`.
    pub open spec fn counters_at_least(self, before: ExecutionMetrics) -> bool {
        &&& self.total_orders >= before.total_orders
        &&& self.filled_orders >= before.filled_orders
        &&& self.cancelled_orders >= before.cancelled_orders
        &&& self.rejected_orders >= before.rejected_orders
        &&& self.total_trades >= before.total_trades
        &&& self.total_notional >= before.total_notional
    }

    pub open spec fn is_zero(self) -> bool {
        self == ExecutionMetrics {
            total_orders: 0,
            filled_orders: 0,
            cancelled_orders: 0,
            rejected_orders: 0,
            total_trades: 0,
            total_notional: 0,
            avg_latency_micros: 0,
            p50_latency_micros: 0,
            p95_latency_micros: 0,
            p99_latency_micros: 0,
        }
    }
}

impl Default for ExecutionMetrics {
    fn default() -> (r: ExecutionMetrics)
        ensures
            r.is_zero(),
    {
        ExecutionMetrics {
            total_orders: 0,
            filled_orders: 0,
            cancelled_orders: 0,
            rejected_orders: 0,
            total_trades: 0,
            total_notional: 0,
            avg_latency_micros: 0,
            p50_latency_micros: 0,
            p95_latency_micros: 0,
            p99_latency_micros: 0,
        }
    }
}

} // verus!
