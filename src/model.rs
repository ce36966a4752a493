//! The domain types: orders as seen on the exchange, requests to place and to
//! cancel orders, a market snapshot and the strategy's configuration.
use vstd::prelude::*;

verus! {

/// The side of an order: a buy (`Bid`) or a sell (`Ask`).
#[derive(Clone, Copy, Debug, PartialEq, Eq, Structural)]
pub enum OrderType {
    Bid,
    Ask,
}

impl OrderType {
    /// Whether this is the buy side.
    pub fn is_bid(&self) -> (r: bool)
        ensures
            r == (*self == OrderType::Bid),
    {
        match self {
            OrderType::Bid => true,
            OrderType::Ask => false,
        }
    }
}

/// A live resting order on the exchange; `amount` is what is still unfilled.
#[derive(Clone, Debug)]
pub struct Order {
    pub order_type: OrderType,
    pub id: String,
    pub price: u64,
    pub amount: u64,
}

/// A limit order that the strategy wants placed.
#[derive(Clone, Copy, Debug, PartialEq, Eq, Structural)]
pub struct MakeOrderRequest {
    pub order_type: OrderType,
    pub price: u64,
    pub amount: u64,
}

/// A request to cancel the open order with the given id.
#[derive(Clone, Debug)]
pub struct CancelOrderRequest {
    pub id: String,
}

/// A snapshot of the market: the latest price and this trader's open orders.
pub struct Stats {
    pub latest_price: u64,
    pub open_orders: Vec<Order>,
}

/// The strategy's configuration; prices and amounts are fixed-point integers.
pub struct Config {
    /// Grid spacing between adjacent ladder prices.
    pub increment: u64,
    /// Amount of each fresh ladder order.
    pub order_size: u64,
    /// Below this remaining target amount a placement is suppressed.
    pub min_order_size: u64,
    /// Leading bids priced at or below this are skipped from the bid ladder.
    pub max_buy_price: u64,
    /// Leading asks priced at or above this are skipped from the ask ladder.
    pub min_sell_price: u64,
    /// Depth of the ladder on each side.
    pub max_orders_per_direction: u64,
    /// How many placements one iteration may emit.
    pub max_orders_to_make_per_iteration: usize,
    /// How many cancellations one iteration may emit.
    pub max_orders_to_cancel_per_iteration: usize,
    /// Delay between two iterations of the control loop.
    pub iteration_interval: std::time::Duration,
}

} // verus!
