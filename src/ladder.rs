//! The ladder builder: the target limit orders for a given latest price.
use crate::model::{Config, MakeOrderRequest, OrderType};
use vstd::arithmetic::div_mod::{
    lemma_fundamental_div_mod, lemma_fundamental_div_mod_converse, lemma_mod_multiples_basic,
    lemma_mod_pos_bound,
};
use vstd::prelude::*;

verus! {

/// The best bid: one full increment below the grid point at or below the latest price.
pub open spec fn spec_starting_bid(latest_price: u64, increment: u64) -> int {
    (latest_price as int / increment as int - 1) * increment as int
}

/// The best ask: at least one full increment above the latest price.
pub open spec fn spec_starting_ask(latest_price: u64, increment: u64) -> int {
    ((latest_price as int - 1) / increment as int + 2) * increment as int
}

/// The `i`-th candidate bid price, descending from the best bid.
pub open spec fn bid_price(latest_price: u64, config: Config, i: int) -> int {
    spec_starting_bid(latest_price, config.increment) - i * config.increment
}

/// The `i`-th candidate ask price, ascending from the best ask.
pub open spec fn ask_price(latest_price: u64, config: Config, i: int) -> int {
    spec_starting_ask(latest_price, config.increment) + i * config.increment
}

/// A candidate bid is emitted when it does not underflow and is not part of the
/// leading run of bids priced at or below `max_buy_price`. Bid prices descend, so
/// that run is empty when the best bid is above `max_buy_price` and is the whole
/// side otherwise.
pub open spec fn bid_kept(latest_price: u64, config: Config, i: int) -> bool {
    &&& 0 <= bid_price(latest_price, config, i)
    &&& bid_price(latest_price, config, 0) > config.max_buy_price
}

/// A candidate ask is emitted when it fits in a `u64` and is not part of the
/// leading run of asks priced at or above `min_sell_price`. Ask prices ascend, so
/// that run is empty when the best ask is below `min_sell_price` and is the whole
/// side otherwise.
pub open spec fn ask_kept(latest_price: u64, config: Config, i: int) -> bool {
    &&& ask_price(latest_price, config, i) <= u64::MAX
    &&& ask_price(latest_price, config, 0) < config.min_sell_price
}

/// The bids emitted among the first `n` candidates, best first.
pub open spec fn ladder_bids(latest_price: u64, config: Config, n: nat) -> Seq<MakeOrderRequest>
    decreases n,
{
    if n == 0 {
        seq![]
    } else {
        let rest = ladder_bids(latest_price, config, (n - 1) as nat);
        if bid_kept(latest_price, config, n - 1) {
            rest.push(
                MakeOrderRequest {
                    order_type: OrderType::Bid,
                    price: bid_price(latest_price, config, n - 1) as u64,
                    amount: config.order_size,
                },
            )
        } else {
            rest
        }
    }
}

/// The asks emitted among the first `n` candidates, best first.
pub open spec fn ladder_asks(latest_price: u64, config: Config, n: nat) -> Seq<MakeOrderRequest>
    decreases n,
{
    if n == 0 {
        seq![]
    } else {
        let rest = ladder_asks(latest_price, config, (n - 1) as nat);
        if ask_kept(latest_price, config, n - 1) {
            rest.push(
                MakeOrderRequest {
                    order_type: OrderType::Ask,
                    price: ask_price(latest_price, config, n - 1) as u64,
                    amount: config.order_size,
                },
            )
        } else {
            rest
        }
    }
}

/// The target ladder: the bids, then the asks.
pub open spec fn ladder(latest_price: u64, config: Config) -> Seq<MakeOrderRequest> {
    ladder_bids(latest_price, config, config.max_orders_per_direction as nat) + ladder_asks(
        latest_price,
        config,
        config.max_orders_per_direction as nat,
    )
}

proof fn lemma_minus_one_div(d: int)
    requires
        d > 0,
    ensures
        (-1int) / d == -1,
{
    lemma_fundamental_div_mod_converse(-1, d, -1, d - 1);
}

proof fn lemma_bids_stop(latest_price: u64, config: Config, m: nat, n: nat)
    requires
        m <= n,
        forall|j: int| m <= j < n ==> !bid_kept(latest_price, config, j),
    ensures
        ladder_bids(latest_price, config, n) == ladder_bids(latest_price, config, m),
    decreases n,
{
    if n > m {
        lemma_bids_stop(latest_price, config, m, (n - 1) as nat);
    }
}

proof fn lemma_asks_stop(latest_price: u64, config: Config, m: nat, n: nat)
    requires
        m <= n,
        forall|j: int| m <= j < n ==> !ask_kept(latest_price, config, j),
    ensures
        ladder_asks(latest_price, config, n) == ladder_asks(latest_price, config, m),
    decreases n,
{
    if n > m {
        lemma_asks_stop(latest_price, config, m, (n - 1) as nat);
    }
}

/// The best bid for a latest price of at least one increment.
pub fn starting_bid(latest_price: u64, increment: u64) -> (r: u64)
    requires
        increment > 0,
        latest_price >= increment,
    ensures
        r == spec_starting_bid(latest_price, increment),
{
    let q: u64 = latest_price / increment;
    proof {
        let x = latest_price as int;
        let d = increment as int;
        lemma_fundamental_div_mod(x, d);
        lemma_mod_pos_bound(x, d);
        let r = x % d;
        assert(q >= 1) by (nonlinear_arith)
            requires
                x == d * q + r,
                x >= d,
                r < d;
        assert((q - 1) * d <= x) by (nonlinear_arith)
            requires
                x == d * q + r,
                r >= 0,
                d > 0,
                q >= 1;
    }
    (q - 1) * increment
}

/// `(latest_price - 1) / increment + 1` computed without underflow; the best ask is
/// one increment above this many increments.
fn ask_base(latest_price: u64, increment: u64) -> (r: u64)
    requires
        increment > 0,
    ensures
        r as int == (latest_price as int - 1) / increment as int + 1,
{
    if latest_price == 0 {
        proof {
            lemma_minus_one_div(increment as int);
        }
        0
    } else {
        proof {
            let x = latest_price - 1;
            let d = increment as int;
            lemma_fundamental_div_mod(x, d);
            lemma_mod_pos_bound(x, d);
            let q = x / d;
            let r = x % d;
            assert(q <= x) by (nonlinear_arith)
                requires
                    x == d * q + r,
                    r >= 0,
                    d > 0,
                    x >= 0;
        }
        (latest_price - 1) / increment + 1
    }
}

/// The best ask, where it fits in a `u64`.
pub fn starting_ask(latest_price: u64, increment: u64) -> (r: u64)
    requires
        increment > 0,
        spec_starting_ask(latest_price, increment) <= u64::MAX,
    ensures
        r == spec_starting_ask(latest_price, increment),
{
    let b = ask_base(latest_price, increment);
    proof {
        let a = b as int + 1;
        let d = increment as int;
        assert(spec_starting_ask(latest_price, increment) == a * d);
        assert(a <= a * d) by (nonlinear_arith)
            requires
                a >= 1,
                d >= 1;
    }
    (b + 1) * increment
}

proof fn lemma_bid_price_facts(latest_price: u64, config: Config, i: int)
    requires
        config.increment > 0,
        i >= 0,
    ensures
        bid_price(latest_price, config, i) % config.increment as int == 0,
        bid_price(latest_price, config, i) < latest_price,
{
    let x = latest_price as int;
    let d = config.increment as int;
    let q = x / d;
    lemma_fundamental_div_mod(x, d);
    lemma_mod_pos_bound(x, d);
    let r = x % d;
    assert(bid_price(latest_price, config, i) == (q - 1 - i) * d) by (nonlinear_arith)
        requires
            bid_price(latest_price, config, i) == (q - 1) * d - i * d;
    lemma_mod_multiples_basic(q - 1 - i, d);
    assert((q - 1 - i) * d < x) by (nonlinear_arith)
        requires
            x == d * q + r,
            r >= 0,
            d > 0,
            i >= 0;
}

proof fn lemma_ask_price_facts(latest_price: u64, config: Config, i: int)
    requires
        config.increment > 0,
        i >= 0,
    ensures
        ask_price(latest_price, config, i) % config.increment as int == 0,
        ask_price(latest_price, config, i) > latest_price,
{
    let x = latest_price as int - 1;
    let d = config.increment as int;
    let q = x / d;
    lemma_fundamental_div_mod(x, d);
    vstd::arithmetic::div_mod::lemma_mod_bound(x, d);
    let r = x % d;
    assert(ask_price(latest_price, config, i) == (q + 2 + i) * d) by (nonlinear_arith)
        requires
            ask_price(latest_price, config, i) == (q + 2) * d + i * d;
    lemma_mod_multiples_basic(q + 2 + i, d);
    assert((q + 2 + i) * d > x + 1) by (nonlinear_arith)
        requires
            x == d * q + r,
            r < d,
            d > 0,
            i >= 0;
}

/// Every bid of the ladder lies on the grid, strictly below the latest price.
pub proof fn lemma_ladder_bids_facts(latest_price: u64, config: Config, n: nat)
    requires
        config.increment > 0,
    ensures
        forall|k: int|
            0 <= k < ladder_bids(latest_price, config, n).len() ==> {
                let o = #[trigger] ladder_bids(latest_price, config, n)[k];
                &&& o.order_type == OrderType::Bid
                &&& o.price % config.increment == 0
                &&& o.price < latest_price
                &&& o.amount == config.order_size
            },
    decreases n,
{
    if n > 0 {
        lemma_ladder_bids_facts(latest_price, config, (n - 1) as nat);
        lemma_bid_price_facts(latest_price, config, n - 1);
    }
}

/// Every ask of the ladder lies on the grid, strictly above the latest price.
pub proof fn lemma_ladder_asks_facts(latest_price: u64, config: Config, n: nat)
    requires
        config.increment > 0,
    ensures
        forall|k: int|
            0 <= k < ladder_asks(latest_price, config, n).len() ==> {
                let o = #[trigger] ladder_asks(latest_price, config, n)[k];
                &&& o.order_type == OrderType::Ask
                &&& o.price % config.increment == 0
                &&& o.price > latest_price
                &&& o.amount == config.order_size
            },
    decreases n,
{
    if n > 0 {
        lemma_ladder_asks_facts(latest_price, config, (n - 1) as nat);
        lemma_ask_price_facts(latest_price, config, n - 1);
    }
}

/// The target ladder for `latest_price`: up to `max_orders_per_direction` bids
/// descending from the best bid, then as many asks ascending from the best ask.
pub fn build_orders(latest_price: u64, config: &Config) -> (r: Vec<MakeOrderRequest>)
    requires
        config.increment > 0,
    ensures
        r@ == ladder(latest_price, *config),
        forall|k: int|
            0 <= k < r@.len() ==> #[trigger] r@[k].price % config.increment == 0,
        forall|k: int|
            0 <= k < r@.len() ==> (#[trigger] r@[k].order_type == OrderType::Bid ==> r@[k].price
                < latest_price),
        forall|k: int|
            0 <= k < r@.len() ==> (#[trigger] r@[k].order_type == OrderType::Ask ==> r@[k].price
                > latest_price),
{
    let inc = config.increment;
    let n = config.max_orders_per_direction;
    let ghost cfg = *config;
    let mut r: Vec<MakeOrderRequest> = Vec::new();
    let q = latest_price / inc;
    if q >= 1 {
        let m = q - 1;
        proof {
            let x = latest_price as int;
            let d = inc as int;
            lemma_fundamental_div_mod(x, d);
            lemma_mod_pos_bound(x, d);
            assert(m * d <= x) by (nonlinear_arith)
                requires
                    x == d * q + x % d,
                    x % d >= 0,
                    m == q - 1,
                    d > 0;
        }
        let lim: u64 = if m < n {
            m + 1
        } else {
            n
        };
        let bids_open = m * inc > config.max_buy_price;
        assert(bid_price(latest_price, cfg, 0) == m * inc);
        let mut i: u64 = 0;
        while i < lim
            invariant
                cfg == *config,
                bids_open == (bid_price(latest_price, cfg, 0) > cfg.max_buy_price),
                inc == cfg.increment,
                inc > 0,
                q == latest_price / inc,
                m == q - 1,
                m * inc <= latest_price,
                lim <= n,
                lim <= m + 1,
                n == cfg.max_orders_per_direction,
                i <= lim,
                r@ == ladder_bids(latest_price, cfg, i as nat),
            decreases lim - i,
        {
            proof {
                assert((m - i) * inc <= m * inc) by (nonlinear_arith)
                    requires
                        i <= m,
                        inc > 0;
                assert((m - i) * inc == (q - 1) * inc - i * inc) by (nonlinear_arith)
                    requires
                        m == q - 1;
            }
            let price = (m - i) * inc;
            if bids_open {
                r.push(MakeOrderRequest { order_type: OrderType::Bid, price, amount: config.order_size });
            }
            i = i + 1;
        }
        proof {
            assert forall|j: int| lim <= j < n implies !bid_kept(latest_price, cfg, j) by {
                assert((q - 1) * inc - j * inc < 0) by (nonlinear_arith)
                    requires
                        j >= m + 1,
                        m == q - 1,
                        inc > 0;
            }
            lemma_bids_stop(latest_price, cfg, lim as nat, n as nat);
        }
    } else {
        proof {
            assert forall|j: int| 0 <= j < n implies !bid_kept(latest_price, cfg, j) by {
                assert((q - 1) * inc - j * inc < 0) by (nonlinear_arith)
                    requires
                        j >= 0,
                        q == 0,
                        inc > 0;
            }
            lemma_bids_stop(latest_price, cfg, 0, n as nat);
        }
    }
    let ghost bids = r@;
    assert(bids + ladder_asks(latest_price, cfg, 0) =~= bids);
    let top = u64::MAX / inc;
    let b = ask_base(latest_price, inc);
    proof {
        lemma_fundamental_div_mod(u64::MAX as int, inc as int);
        lemma_mod_pos_bound(u64::MAX as int, inc as int);
        let rr = u64::MAX as int % inc as int;
        assert(top * inc <= u64::MAX) by (nonlinear_arith)
            requires
                u64::MAX == inc * top + rr,
                rr >= 0;
        assert forall|j: int| j >= top - b implies !ask_kept(latest_price, cfg, j) by {
            assert((b + 1) * inc + j * inc > u64::MAX) by (nonlinear_arith)
                requires
                    u64::MAX == inc * top + rr,
                    rr < inc,
                    j >= top - b,
                    inc > 0;
        }
    }
    if b < top {
        let lim: u64 = if top - b < n {
            top - b
        } else {
            n
        };
        proof {
            assert((b + 1) * inc <= top * inc) by (nonlinear_arith)
                requires
                    b + 1 <= top,
                    inc > 0;
        }
        let asks_open = (b + 1) * inc < config.min_sell_price;
        assert(ask_price(latest_price, cfg, 0) == (b + 1) * inc);
        let mut i: u64 = 0;
        while i < lim
            invariant
                cfg == *config,
                asks_open == (ask_price(latest_price, cfg, 0) < cfg.min_sell_price),
                inc == cfg.increment,
                inc > 0,
                top * inc <= u64::MAX,
                b < top,
                b as int == (latest_price as int - 1) / inc as int + 1,
                lim <= n,
                lim <= top - b,
                n == cfg.max_orders_per_direction,
                i <= lim,
                r@ == bids + ladder_asks(latest_price, cfg, i as nat),
            decreases lim - i,
        {
            proof {
                assert((b + 1 + i) * inc <= top * inc) by (nonlinear_arith)
                    requires
                        b + 1 + i <= top,
                        inc > 0;
                assert((b + 1 + i) * inc == (b + 1) * inc + i * inc) by (nonlinear_arith);
            }
            let price = (b + 1 + i) * inc;
            if asks_open {
                r.push(MakeOrderRequest { order_type: OrderType::Ask, price, amount: config.order_size });
            }
            i = i + 1;
        }
        proof {
            lemma_asks_stop(latest_price, cfg, lim as nat, n as nat);
        }
    } else {
        proof {
            lemma_asks_stop(latest_price, cfg, 0, n as nat);
        }
    }
    proof {
        lemma_ladder_bids_facts(latest_price, cfg, n as nat);
        lemma_ladder_asks_facts(latest_price, cfg, n as nat);
        let s = r@;
        let nb = bids.len();
        assert forall|k: int| 0 <= k < s.len() implies {
            &&& s[k].price % inc == 0
            &&& (s[k].order_type == OrderType::Bid ==> s[k].price < latest_price)
            &&& (s[k].order_type == OrderType::Ask ==> s[k].price > latest_price)
        } by {
            if k < nb {
                assert(s[k] == ladder_bids(latest_price, cfg, n as nat)[k]);
            } else {
                assert(s[k] == ladder_asks(latest_price, cfg, n as nat)[k - nb]);
            }
        }
    }
    r
}

} // verus!
