use simple_market_maker::{build_orders, starting_ask, starting_bid, Config, MakeOrderRequest, OrderType};
use std::time::Duration;

fn config(increment: u64, max_buy_price: u64, min_sell_price: u64, depth: u64) -> Config {
    Config {
        increment,
        order_size: 100,
        min_order_size: 10,
        max_buy_price,
        min_sell_price,
        max_orders_per_direction: depth,
        max_orders_to_make_per_iteration: 10,
        max_orders_to_cancel_per_iteration: 10,
        iteration_interval: Duration::from_secs(1),
    }
}

fn bid(price: u64, amount: u64) -> MakeOrderRequest {
    MakeOrderRequest { order_type: OrderType::Bid, price, amount }
}

fn ask(price: u64, amount: u64) -> MakeOrderRequest {
    MakeOrderRequest { order_type: OrderType::Ask, price, amount }
}

#[test]
fn build_orders_tests() {
    let config = Config {
        increment: 10,
        order_size: 100,
        min_order_size: 10,
        max_buy_price: 1000,
        min_sell_price: 500,
        max_orders_per_direction: 10,
        max_orders_to_make_per_iteration: 10,
        max_orders_to_cancel_per_iteration: 10,
        iteration_interval: Duration::from_secs(1),
    };
    let _ = config;
}

#[test]
fn starting_bid_seed_values() {
    assert_eq!(starting_bid(100, 10), 90);
    assert_eq!(starting_bid(1001, 100), 900);
    assert_eq!(starting_bid(2999, 10), 2980);
    assert_eq!(starting_bid(100011, 2), 100008);
}

#[test]
fn starting_ask_seed_values() {
    assert_eq!(starting_ask(100, 10), 110);
    assert_eq!(starting_ask(1001, 100), 1200);
    assert_eq!(starting_ask(2999, 10), 3010);
    assert_eq!(starting_ask(100011, 2), 100014);
}

#[test]
fn starting_ask_at_zero_price() {
    assert_eq!(starting_ask(0, 10), 10);
}

#[test]
fn ladder_without_guards() {
    let ladder = build_orders(1000, &config(10, 0, u64::MAX, 3));
    assert_eq!(
        ladder,
        vec![bid(990, 100), bid(980, 100), bid(970, 100), ask(1010, 100), ask(1020, 100), ask(1030, 100)]
    );
}

#[test]
fn ladder_prices_on_grid_and_off_market() {
    for latest in [0u64, 1, 9, 10, 11, 999, 1000, 1001, 123457] {
        let ladder = build_orders(latest, &config(10, 0, u64::MAX, 20));
        for o in &ladder {
            assert_eq!(o.price % 10, 0);
            match o.order_type {
                OrderType::Bid => assert!(o.price < latest),
                OrderType::Ask => assert!(o.price > latest),
            }
        }
    }
}

#[test]
fn ladder_bids_vanish_when_best_bid_at_or_below_guard() {
    let ladder = build_orders(1000, &config(10, 990, u64::MAX, 3));
    assert_eq!(ladder, vec![ask(1010, 100), ask(1020, 100), ask(1030, 100)]);
}

#[test]
fn ladder_bids_kept_whole_when_best_bid_above_guard() {
    let ladder = build_orders(1000, &config(10, 975, u64::MAX, 4));
    assert_eq!(
        ladder,
        vec![bid(990, 100), bid(980, 100), bid(970, 100), bid(960, 100), ask(1010, 100), ask(1020, 100), ask(1030, 100), ask(1040, 100)]
    );
}

#[test]
fn ladder_asks_vanish_when_best_ask_at_or_above_guard() {
    let ladder = build_orders(1000, &config(10, 0, 1010, 3));
    assert_eq!(ladder, vec![bid(990, 100), bid(980, 100), bid(970, 100)]);
}

#[test]
fn ladder_asks_kept_whole_when_best_ask_below_guard() {
    let ladder = build_orders(1000, &config(10, 0, 1025, 3));
    assert_eq!(
        ladder,
        vec![bid(990, 100), bid(980, 100), bid(970, 100), ask(1010, 100), ask(1020, 100), ask(1030, 100)]
    );
}

#[test]
fn ladder_stops_bids_before_underflow() {
    let ladder = build_orders(25, &config(10, 0, u64::MAX, 5));
    assert_eq!(ladder, vec![bid(10, 100), bid(0, 100), ask(40, 100), ask(50, 100), ask(60, 100), ask(70, 100), ask(80, 100)]);
}

#[test]
fn ladder_has_no_bids_below_one_increment() {
    let ladder = build_orders(5, &config(10, 0, u64::MAX, 2));
    assert_eq!(ladder, vec![ask(20, 100), ask(30, 100)]);
}

#[test]
fn ladder_stops_asks_before_overflow() {
    let latest = u64::MAX - 25;
    let ladder = build_orders(latest, &config(10, 0, u64::MAX, 5));
    let asks: Vec<u64> = ladder.iter().filter(|o| o.order_type == OrderType::Ask).map(|o| o.price).collect();
    assert_eq!(asks, vec![u64::MAX - 15, u64::MAX - 5]);
    assert_eq!(ladder.iter().filter(|o| o.order_type == OrderType::Bid).count(), 5);
}

#[test]
fn ladder_of_zero_depth_is_empty() {
    assert!(build_orders(1000, &config(10, 0, u64::MAX, 0)).is_empty());
}

#[test]
fn guards_at_extremes_skip_nothing() {
    let ladder = build_orders(1000, &config(10, 0, u64::MAX, 3));
    assert_eq!(
        ladder,
        vec![bid(990, 100), bid(980, 100), bid(970, 100), ask(1010, 100), ask(1020, 100), ask(1030, 100)]
    );
}

#[test]
fn guards_at_opposite_extremes_skip_everything() {
    assert!(build_orders(1000, &config(10, u64::MAX, 0, 3)).is_empty());
}
