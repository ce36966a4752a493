//! A market-making strategy engine: builds a ladder of limit orders around the
//! latest price and reconciles it against the orders that are already open.
pub mod iteration;
pub mod ladder;
pub mod laws;
pub mod model;
pub mod reconcile;
pub mod sequence;

pub use iteration::{plan_iteration, IterationPlan};
pub use ladder::{build_orders, starting_ask, starting_bid};
pub use model::{CancelOrderRequest, Config, MakeOrderRequest, Order, OrderType, Stats};
pub use reconcile::{calculate_orders_to_cancel, calculate_orders_to_make};
