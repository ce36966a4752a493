//! One iteration of the control loop, as a decision: from a market snapshot
//! and the configuration to the placements and cancellations to dispatch.
use crate::ladder::{build_orders, ladder};
use crate::model::{CancelOrderRequest, Config, MakeOrderRequest, Stats};
use crate::reconcile::{
    calculate_orders_to_cancel, calculate_orders_to_make, cancellation_plan, placement_plan,
};
use vstd::prelude::*;

verus! {

/// The requests that one iteration hands to the exchange; the two batches may
/// be dispatched concurrently.
pub struct IterationPlan {
    pub to_make: Vec<MakeOrderRequest>,
    pub to_cancel: Vec<CancelOrderRequest>,
}

/// Builds the target ladder around the snapshot's latest price and reconciles
/// the snapshot's open orders against it under the per-iteration caps.
pub fn plan_iteration(stats: &Stats, config: &Config) -> (r: IterationPlan)
    requires
        config.increment > 0,
    ensures
        r.to_make@ == placement_plan(
            stats.open_orders@,
            ladder(stats.latest_price, *config),
            config.min_order_size,
            config.max_orders_to_make_per_iteration,
        ),
        r.to_cancel@.len() == cancellation_plan(
            stats.open_orders@,
            ladder(stats.latest_price, *config),
            config.max_orders_to_cancel_per_iteration,
        ).len(),
        forall|k: int|
            0 <= k < r.to_cancel@.len() ==> #[trigger] r.to_cancel@[k].id
                == stats.open_orders@[cancellation_plan(
                stats.open_orders@,
                ladder(stats.latest_price, *config),
                config.max_orders_to_cancel_per_iteration,
            )[k] as int].id,
        r.to_make@.len() <= config.max_orders_to_make_per_iteration,
        r.to_cancel@.len() <= config.max_orders_to_cancel_per_iteration,
{
    let target = build_orders(stats.latest_price, config);
    let open = stats.open_orders.as_slice();
    let to_cancel = calculate_orders_to_cancel(
        open,
        target.as_slice(),
        config.max_orders_to_cancel_per_iteration,
    );
    let to_make = calculate_orders_to_make(
        open,
        target,
        config.min_order_size,
        config.max_orders_to_make_per_iteration,
    );
    IterationPlan { to_make, to_cancel }
}

} // verus!
