use simple_market_maker::{
    build_orders, calculate_orders_to_cancel, calculate_orders_to_make, plan_iteration, Config,
    MakeOrderRequest, Order, OrderType, Stats,
};
use std::time::Duration;

fn config(depth: u64, max_make: usize, max_cancel: usize, min_order_size: u64) -> Config {
    Config {
        increment: 10,
        order_size: 100,
        min_order_size,
        max_buy_price: 0,
        min_sell_price: u64::MAX,
        max_orders_per_direction: depth,
        max_orders_to_make_per_iteration: max_make,
        max_orders_to_cancel_per_iteration: max_cancel,
        iteration_interval: Duration::from_secs(1),
    }
}

fn bid(price: u64, amount: u64) -> MakeOrderRequest {
    MakeOrderRequest { order_type: OrderType::Bid, price, amount }
}

fn ask(price: u64, amount: u64) -> MakeOrderRequest {
    MakeOrderRequest { order_type: OrderType::Ask, price, amount }
}

fn open(order_type: OrderType, id: &str, price: u64, amount: u64) -> Order {
    Order { order_type, id: id.to_string(), price, amount }
}

fn ids(v: &[simple_market_maker::CancelOrderRequest]) -> Vec<String> {
    v.iter().map(|c| c.id.clone()).collect()
}

#[test]
fn cold_start_empty_book() {
    let cfg = config(3, 10, 10, 10);
    let target = build_orders(1000, &cfg);
    let place = calculate_orders_to_make(&[], target.clone(), cfg.min_order_size, 10);
    let cancel = calculate_orders_to_cancel(&[], &target, 10);
    assert_eq!(
        place,
        vec![bid(990, 100), ask(1010, 100), bid(980, 100), ask(1020, 100), bid(970, 100), ask(1030, 100)]
    );
    assert!(cancel.is_empty());
}

#[test]
fn exact_match_needs_nothing() {
    let cfg = config(3, 10, 10, 10);
    let target = build_orders(1000, &cfg);
    let book = vec![
        open(OrderType::Bid, "a", 990, 100),
        open(OrderType::Bid, "b", 980, 100),
        open(OrderType::Bid, "c", 970, 100),
        open(OrderType::Ask, "d", 1010, 100),
        open(OrderType::Ask, "e", 1020, 100),
        open(OrderType::Ask, "f", 1030, 100),
    ];
    assert!(calculate_orders_to_make(&book, target.clone(), 10, 10).is_empty());
    assert!(calculate_orders_to_cancel(&book, &target, 10).is_empty());
}

#[test]
fn partial_fill_tops_up_remaining_amount() {
    let book = vec![open(OrderType::Bid, "a", 990, 40)];
    let target = vec![bid(990, 100)];
    assert_eq!(calculate_orders_to_make(&book, target.clone(), 10, 10), vec![bid(990, 60)]);
    assert!(calculate_orders_to_make(&book, target, 70, 10).is_empty());
}

#[test]
fn stale_price_is_cancelled() {
    let cfg = config(3, 10, 10, 10);
    let target = build_orders(1000, &cfg);
    let book = vec![open(OrderType::Bid, "stale", 985, 100)];
    assert_eq!(ids(&calculate_orders_to_cancel(&book, &target, 10)), vec!["stale".to_string()]);
    assert_eq!(
        calculate_orders_to_make(&book, target, 10, 10),
        vec![bid(990, 100), ask(1010, 100), bid(980, 100), ask(1020, 100), bid(970, 100), ask(1030, 100)]
    );
}

#[test]
fn placement_cap_takes_inside_prices_first() {
    let cfg = config(5, 3, 10, 10);
    let target = build_orders(1000, &cfg);
    assert_eq!(target.len(), 10);
    let place = calculate_orders_to_make(&[], target, 10, cfg.max_orders_to_make_per_iteration);
    assert_eq!(place, vec![bid(990, 100), ask(1010, 100), bid(980, 100)]);
}

#[test]
fn cancellation_cap_alternates_sides() {
    let cfg = config(3, 10, 4, 10);
    let target = build_orders(1000, &cfg);
    let book = vec![
        open(OrderType::Bid, "b955", 955, 1),
        open(OrderType::Bid, "b985", 985, 1),
        open(OrderType::Bid, "b965", 965, 1),
        open(OrderType::Bid, "b975", 975, 1),
        open(OrderType::Bid, "b945", 945, 1),
        open(OrderType::Ask, "a1045", 1045, 1),
        open(OrderType::Ask, "a1015", 1015, 1),
        open(OrderType::Ask, "a1035", 1035, 1),
        open(OrderType::Ask, "a1025", 1025, 1),
        open(OrderType::Ask, "a1055", 1055, 1),
    ];
    let cancel = calculate_orders_to_cancel(&book, &target, 4);
    assert_eq!(ids(&cancel), vec!["b985", "a1015", "b975", "a1025"]);
    let all = calculate_orders_to_cancel(&book, &target, 100);
    assert_eq!(
        ids(&all),
        vec!["b985", "a1015", "b975", "a1025", "b965", "a1035", "b955", "a1045", "b945", "a1055"]
    );
}

#[test]
fn interleave_continues_with_longer_side() {
    let target = vec![bid(990, 5), bid(980, 5), bid(970, 5), ask(1010, 5)];
    assert_eq!(
        calculate_orders_to_make(&[], target, 1, 10),
        vec![bid(990, 5), ask(1010, 5), bid(980, 5), bid(970, 5)]
    );
}

#[test]
fn unsorted_targets_come_out_sorted() {
    let target = vec![ask(1030, 5), bid(970, 5), ask(1010, 5), bid(990, 5), bid(980, 5)];
    assert_eq!(
        calculate_orders_to_make(&[], target, 1, 10),
        vec![bid(990, 5), ask(1010, 5), bid(980, 5), ask(1030, 5), bid(970, 5)]
    );
}

#[test]
fn duplicate_target_price_keeps_last_amount() {
    let target = vec![bid(990, 5), bid(990, 8)];
    assert_eq!(calculate_orders_to_make(&[], target, 1, 10), vec![bid(990, 8)]);
}

#[test]
fn duplicate_open_orders_add_up() {
    let book = vec![open(OrderType::Bid, "x", 990, 30), open(OrderType::Bid, "y", 990, 30)];
    assert_eq!(calculate_orders_to_make(&book, vec![bid(990, 100)], 10, 10), vec![bid(990, 40)]);
    let more = vec![
        open(OrderType::Bid, "x", 990, 60),
        open(OrderType::Bid, "y", 990, 60),
    ];
    assert!(calculate_orders_to_make(&more, vec![bid(990, 100)], 10, 10).is_empty());
}

#[test]
fn open_order_on_other_side_does_not_count() {
    let book = vec![open(OrderType::Ask, "x", 990, 100)];
    assert_eq!(calculate_orders_to_make(&book, vec![bid(990, 100)], 10, 10), vec![bid(990, 100)]);
    assert_eq!(ids(&calculate_orders_to_cancel(&book, &[bid(990, 100)], 10)), vec!["x"]);
}

#[test]
fn covering_open_order_suppresses_placement() {
    let book = vec![open(OrderType::Ask, "x", 1010, 250)];
    let place = calculate_orders_to_make(&book, vec![ask(1010, 100), ask(1020, 100)], 1, 10);
    assert_eq!(place, vec![ask(1020, 100)]);
}

#[test]
fn caps_bound_output_lengths() {
    let cfg = config(8, 10, 10, 10);
    let target = build_orders(1000, &cfg);
    let book: Vec<Order> = (0..20u64).map(|i| open(OrderType::Ask, &format!("o{i}"), 2001 + i, 1)).collect();
    for cap in 0..12usize {
        assert!(calculate_orders_to_make(&book, target.clone(), 10, cap).len() <= cap);
        assert!(calculate_orders_to_cancel(&book, &target, cap).len() <= cap);
    }
    assert_eq!(calculate_orders_to_make(&book, target.clone(), 10, 0), vec![]);
    assert_eq!(calculate_orders_to_cancel(&book, &target, 7).len(), 7);
}

#[test]
fn cancelled_orders_are_never_at_placed_prices() {
    let cfg = config(3, 10, 10, 10);
    let target = build_orders(1000, &cfg);
    let book = vec![
        open(OrderType::Bid, "keep", 990, 30),
        open(OrderType::Bid, "drop", 995, 30),
        open(OrderType::Ask, "drop2", 1000, 30),
    ];
    let place = calculate_orders_to_make(&book, target.clone(), 10, 10);
    let cancel = ids(&calculate_orders_to_cancel(&book, &target, 10));
    assert_eq!(cancel, vec!["drop", "drop2"]);
    assert_eq!(place[0], bid(990, 70));
    for c in &cancel {
        let o = book.iter().find(|o| &o.id == c).unwrap();
        assert!(!place.iter().any(|p| p.order_type == o.order_type && p.price == o.price));
    }
}

#[test]
fn reconciler_is_deterministic() {
    let cfg = config(4, 5, 3, 10);
    let target = build_orders(1234, &cfg);
    let book = vec![
        open(OrderType::Bid, "p", 1220, 40),
        open(OrderType::Bid, "q", 1111, 40),
        open(OrderType::Ask, "r", 1300, 40),
        open(OrderType::Ask, "s", 1240, 140),
    ];
    assert_eq!(
        calculate_orders_to_make(&book, target.clone(), 10, 5),
        calculate_orders_to_make(&book, target.clone(), 10, 5)
    );
    assert_eq!(
        ids(&calculate_orders_to_cancel(&book, &target, 3)),
        ids(&calculate_orders_to_cancel(&book, &target, 3))
    );
}

#[test]
fn plan_iteration_combines_ladder_and_reconciler() {
    let cfg = config(2, 3, 1, 10);
    let stats = Stats {
        latest_price: 1000,
        open_orders: vec![
            open(OrderType::Bid, "old", 950, 100),
            open(OrderType::Bid, "half", 990, 50),
            open(OrderType::Ask, "far", 1100, 100),
        ],
    };
    let plan = plan_iteration(&stats, &cfg);
    assert_eq!(plan.to_make, vec![bid(990, 50), ask(1010, 100), bid(980, 100)]);
    assert_eq!(ids(&plan.to_cancel), vec!["old"]);
}

#[test]
fn zero_minimum_still_skips_fully_covered_target() {
    let book = vec![open(OrderType::Bid, "a", 990, 100)];
    assert!(calculate_orders_to_make(&book, vec![bid(990, 100)], 0, 10).is_empty());
    let over = vec![open(OrderType::Bid, "a", 990, 150)];
    assert!(calculate_orders_to_make(&over, vec![bid(990, 100)], 0, 10).is_empty());
}

#[test]
fn cancellation_count_is_capped_off_target_total() {
    let cfg = config(3, 10, 10, 10);
    let target = build_orders(1000, &cfg);
    let book = vec![
        open(OrderType::Bid, "k", 990, 100),
        open(OrderType::Bid, "s1", 985, 100),
        open(OrderType::Ask, "s2", 1015, 100),
        open(OrderType::Ask, "k2", 1020, 100),
        open(OrderType::Ask, "s3", 990, 100),
    ];
    assert_eq!(calculate_orders_to_cancel(&book, &target, 2).len(), 2);
    assert_eq!(ids(&calculate_orders_to_cancel(&book, &target, 3)), vec!["s1", "s3", "s2"]);
    assert_eq!(calculate_orders_to_cancel(&book, &target, 9).len(), 3);
}
