//! The reconciler: what to place and what to cancel so that the open orders
//! converge towards the target ladder.
use crate::model::{CancelOrderRequest, MakeOrderRequest, Order, OrderType};
use crate::sequence::{
    interleave, interleave_prefix, lemma_cons_contains, lemma_interleave_contains,
    lemma_prefix_contains, prefix,
};
use vstd::prelude::*;

verus! {

/// Whether `x` comes strictly before `y` in descending or in ascending price order.
pub open spec fn goes_before(x: u64, y: u64, descending: bool) -> bool {
    if descending {
        x > y
    } else {
        x < y
    }
}

fn precedes(x: u64, y: u64, descending: bool) -> (r: bool)
    ensures
        r == goes_before(x, y, descending),
{
    if descending {
        x > y
    } else {
        x < y
    }
}

/// Whether some target order on `side` is priced at `price`.
pub open spec fn has_target_price(target: Seq<MakeOrderRequest>, side: OrderType, price: u64) -> bool
    decreases target.len(),
{
    target.len() > 0 && ((target.last().order_type == side && target.last().price == price)
        || has_target_price(target.drop_last(), side, price))
}

/// The amount of the last target order on `side` at `price`; 0 where there is none.
pub open spec fn target_amount(target: Seq<MakeOrderRequest>, side: OrderType, price: u64) -> u64
    decreases target.len(),
{
    if target.len() == 0 {
        0
    } else if target.last().order_type == side && target.last().price == price {
        target.last().amount
    } else {
        target_amount(target.drop_last(), side, price)
    }
}

/// Whether some open order on `side` rests at `price`.
pub open spec fn has_open_order(open: Seq<Order>, side: OrderType, price: u64) -> bool
    decreases open.len(),
{
    open.len() > 0 && ((open.last().order_type == side && open.last().price == price)
        || has_open_order(open.drop_last(), side, price))
}

/// The total amount of the open orders on `side` at `price`.
pub open spec fn open_amount(open: Seq<Order>, side: OrderType, price: u64) -> int
    decreases open.len(),
{
    if open.len() == 0 {
        0
    } else if open.last().order_type == side && open.last().price == price {
        open_amount(open.drop_last(), side, price) + open.last().amount
    } else {
        open_amount(open.drop_last(), side, price)
    }
}

/// What is left of the target at `price` once the open orders there are
/// subtracted, saturating at zero.
pub open spec fn remaining_amount(
    open: Seq<Order>,
    target: Seq<MakeOrderRequest>,
    side: OrderType,
    price: u64,
) -> int {
    let a = target_amount(target, side, price) - open_amount(open, side, price);
    if a < 0 {
        0
    } else {
        a
    }
}

/// A target price still asks for a placement unless open orders rest there and
/// what is left of it is nothing or under the minimum order size.
pub open spec fn still_wanted(
    open: Seq<Order>,
    target: Seq<MakeOrderRequest>,
    side: OrderType,
    price: u64,
    min_order_size: u64,
) -> bool {
    !has_open_order(open, side, price) || (remaining_amount(open, target, side, price)
        >= min_order_size && remaining_amount(open, target, side, price) > 0)
}

/// `p` added to the sorted sequence of distinct prices `s`, in its place.
pub open spec fn insert_price(s: Seq<u64>, p: u64, descending: bool) -> Seq<u64>
    decreases s.len(),
{
    if s.len() == 0 {
        seq![p]
    } else if s[0] == p {
        s
    } else if goes_before(p, s[0], descending) {
        seq![p] + s
    } else {
        seq![s[0]] + insert_price(s.drop_first(), p, descending)
    }
}

/// The distinct prices of the target orders on `side`, sorted.
pub open spec fn target_prices(target: Seq<MakeOrderRequest>, side: OrderType, descending: bool) -> Seq<u64>
    decreases target.len(),
{
    if target.len() == 0 {
        seq![]
    } else {
        let rest = target_prices(target.drop_last(), side, descending);
        if target.last().order_type == side {
            insert_price(rest, target.last().price, descending)
        } else {
            rest
        }
    }
}

/// The placements on `side` for the given prices, in their order: one for each
/// price still wanted, for the remaining amount.
pub open spec fn placements(
    open: Seq<Order>,
    target: Seq<MakeOrderRequest>,
    side: OrderType,
    min_order_size: u64,
    prices: Seq<u64>,
) -> Seq<MakeOrderRequest>
    decreases prices.len(),
{
    if prices.len() == 0 {
        seq![]
    } else {
        let rest = placements(open, target, side, min_order_size, prices.drop_last());
        let p = prices.last();
        if still_wanted(open, target, side, p, min_order_size) {
            rest.push(
                MakeOrderRequest {
                    order_type: side,
                    price: p,
                    amount: remaining_amount(open, target, side, p) as u64,
                },
            )
        } else {
            rest
        }
    }
}

/// The bid placements, best (highest) price first.
pub open spec fn bid_placements(
    open: Seq<Order>,
    target: Seq<MakeOrderRequest>,
    min_order_size: u64,
) -> Seq<MakeOrderRequest> {
    placements(open, target, OrderType::Bid, min_order_size, target_prices(target, OrderType::Bid, true))
}

/// The ask placements, best (lowest) price first.
pub open spec fn ask_placements(
    open: Seq<Order>,
    target: Seq<MakeOrderRequest>,
    min_order_size: u64,
) -> Seq<MakeOrderRequest> {
    placements(open, target, OrderType::Ask, min_order_size, target_prices(target, OrderType::Ask, false))
}

/// The placements of one iteration: bids and asks interleaved from the inside
/// out, bid first, at most `max_to_place` of them.
pub open spec fn placement_plan(
    open: Seq<Order>,
    target: Seq<MakeOrderRequest>,
    min_order_size: u64,
    max_to_place: usize,
) -> Seq<MakeOrderRequest> {
    prefix(
        interleave(bid_placements(open, target, min_order_size), ask_placements(open, target, min_order_size)),
        max_to_place as int,
    )
}

proof fn lemma_insert_price_at(s: Seq<u64>, p: u64, descending: bool, j: int)
    requires
        0 <= j <= s.len(),
        forall|k: int| 0 <= k < j ==> s[k] != p && !goes_before(p, s[k], descending),
        j < s.len() ==> (s[j] == p || goes_before(p, s[j], descending)),
    ensures
        insert_price(s, p, descending) == (if j < s.len() && s[j] == p {
            s
        } else {
            s.insert(j, p)
        }),
    decreases j,
{
    if j == 0 {
        if s.len() == 0 || s[0] != p {
            assert(seq![p] + s =~= s.insert(0, p));
        }
    } else {
        let t = s.drop_first();
        assert forall|k: int| 0 <= k < j - 1 implies t[k] != p && !goes_before(p, t[k], descending) by {
            assert(t[k] == s[k + 1]);
        }
        lemma_insert_price_at(t, p, descending, j - 1);
        if j < s.len() && s[j] == p {
            assert(seq![s[0]] + t =~= s);
        } else {
            assert(seq![s[0]] + t.insert(j - 1, p) =~= s.insert(j, p));
        }
    }
}

proof fn lemma_insert_price_contains(s: Seq<u64>, p: u64, descending: bool, x: u64)
    ensures
        insert_price(s, p, descending).contains(x) <==> (x == p || s.contains(x)),
    decreases s.len(),
{
    let r = insert_price(s, p, descending);
    if s.len() == 0 {
        lemma_cons_contains(p, s, x);
        assert(seq![p] + s =~= seq![p]);
        assert(r == seq![p]);
    } else {
        let t = s.drop_first();
        lemma_cons_contains(s[0], t, x);
        assert(seq![s[0]] + t =~= s);
        if s[0] == p {
            assert(r == s);
            assert(s.contains(p));
        } else if goes_before(p, s[0], descending) {
            assert(r == seq![p] + s);
            lemma_cons_contains(p, s, x);
        } else {
            let u = insert_price(t, p, descending);
            assert(r == seq![s[0]] + u);
            lemma_insert_price_contains(t, p, descending, x);
            lemma_cons_contains(s[0], u, x);
        }
    }
}

/// The open amount at a price is never negative.
pub proof fn lemma_open_amount_nonneg(open: Seq<Order>, side: OrderType, price: u64)
    ensures
        open_amount(open, side, price) >= 0,
    decreases open.len(),
{
    if open.len() > 0 {
        lemma_open_amount_nonneg(open.drop_last(), side, price);
    }
}

/// Every price of `target_prices` is a target price on that side.
pub proof fn lemma_target_prices_are_targets(
    target: Seq<MakeOrderRequest>,
    side: OrderType,
    descending: bool,
    p: u64,
)
    requires
        target_prices(target, side, descending).contains(p),
    ensures
        has_target_price(target, side, p),
    decreases target.len(),
{
    if target.len() > 0 {
        let rest = target_prices(target.drop_last(), side, descending);
        if target.last().order_type == side {
            lemma_insert_price_contains(rest, target.last().price, descending, p);
        }
        if rest.contains(p) {
            lemma_target_prices_are_targets(target.drop_last(), side, descending, p);
        }
    }
}

/// Every placement for a list of prices is on that side, at one of those
/// prices, still wanted, and for the remaining amount.
pub proof fn lemma_placements_facts(
    open: Seq<Order>,
    target: Seq<MakeOrderRequest>,
    side: OrderType,
    min_order_size: u64,
    prices: Seq<u64>,
    x: MakeOrderRequest,
)
    requires
        placements(open, target, side, min_order_size, prices).contains(x),
    ensures
        x.order_type == side,
        prices.contains(x.price),
        still_wanted(open, target, side, x.price, min_order_size),
        x.amount == remaining_amount(open, target, side, x.price),
    decreases prices.len(),
{
    if prices.len() > 0 {
        let rest = placements(open, target, side, min_order_size, prices.drop_last());
        let s = placements(open, target, side, min_order_size, prices);
        let k = choose|k: int| 0 <= k < s.len() && s[k] == x;
        lemma_open_amount_nonneg(open, side, x.price);
        if k < rest.len() {
            assert(rest[k] == x);
            lemma_placements_facts(open, target, side, min_order_size, prices.drop_last(), x);
            let m = choose|m: int| 0 <= m < prices.drop_last().len() && prices.drop_last()[m] == x.price;
            assert(prices[m] == x.price);
        } else {
            assert(prices[prices.len() - 1] == x.price);
        }
    }
}

/// Whether a target order on `side` is priced at `price`.
fn targets_price(target: &[MakeOrderRequest], side: OrderType, price: u64) -> (r: bool)
    ensures
        r == has_target_price(target@, side, price),
{
    let mut found = false;
    let mut i: usize = 0;
    while i < target.len()
        invariant
            i <= target@.len(),
            found == has_target_price(target@.take(i as int), side, price),
        decreases target@.len() - i,
    {
        proof {
            assert(target@.take(i as int + 1).drop_last() =~= target@.take(i as int));
        }
        if target[i].order_type == side && target[i].price == price {
            found = true;
        }
        i = i + 1;
    }
    proof {
        assert(target@.take(i as int) =~= target@);
    }
    found
}

/// The amount of the last target order on `side` at `price`.
fn last_target_amount(target: &[MakeOrderRequest], side: OrderType, price: u64) -> (r: u64)
    ensures
        r == target_amount(target@, side, price),
{
    let mut amount: u64 = 0;
    let mut i: usize = 0;
    assert(target@.take(0).len() == 0);
    while i < target.len()
        invariant
            i <= target@.len(),
            amount == target_amount(target@.take(i as int), side, price),
        decreases target@.len() - i,
    {
        proof {
            assert(target@.take(i as int + 1).drop_last() =~= target@.take(i as int));
        }
        if target[i].order_type == side && target[i].price == price {
            amount = target[i].amount;
        }
        i = i + 1;
    }
    proof {
        assert(target@.take(i as int) =~= target@);
    }
    amount
}

fn insert_sorted_price(v: &mut Vec<u64>, p: u64, descending: bool)
    ensures
        final(v)@ == insert_price(old(v)@, p, descending),
{
    let mut j: usize = 0;
    while j < v.len() && v[j] != p && !precedes(p, v[j], descending)
        invariant
            j <= v@.len(),
            forall|k: int| 0 <= k < j ==> v@[k] != p && !goes_before(p, v@[k], descending),
        decreases v@.len() - j,
    {
        j = j + 1;
    }
    proof {
        lemma_insert_price_at(v@, p, descending, j as int);
    }
    if j < v.len() && v[j] == p {
        return;
    }
    v.insert(j, p);
}

/// The distinct prices of the target orders on `side`, sorted.
fn sorted_target_prices(target: &[MakeOrderRequest], side: OrderType, descending: bool) -> (r: Vec<u64>)
    ensures
        r@ == target_prices(target@, side, descending),
{
    let mut r: Vec<u64> = Vec::new();
    let mut i: usize = 0;
    while i < target.len()
        invariant
            i <= target@.len(),
            r@ == target_prices(target@.take(i as int), side, descending),
        decreases target@.len() - i,
    {
        proof {
            assert(target@.take(i as int + 1).drop_last() =~= target@.take(i as int));
        }
        if target[i].order_type == side {
            insert_sorted_price(&mut r, target[i].price, descending);
        }
        i = i + 1;
    }
    proof {
        assert(target@.take(i as int) =~= target@);
    }
    r
}

/// The placement still wanted on `side` at `price`, if any.
fn placement_at(
    open: &[Order],
    target: &[MakeOrderRequest],
    side: OrderType,
    price: u64,
    min_order_size: u64,
) -> (r: Option<MakeOrderRequest>)
    ensures
        r == (if still_wanted(open@, target@, side, price, min_order_size) {
            Some(
                MakeOrderRequest {
                    order_type: side,
                    price,
                    amount: remaining_amount(open@, target@, side, price) as u64,
                },
            )
        } else {
            None
        }),
{
    let ghost wanted = target_amount(target@, side, price) as int;
    let mut amount = last_target_amount(target, side, price);
    let mut hit = false;
    let mut i: usize = 0;
    while i < open.len()
        invariant
            i <= open@.len(),
            wanted == target_amount(target@, side, price),
            hit == has_open_order(open@.take(i as int), side, price),
            amount == (if wanted - open_amount(open@.take(i as int), side, price) < 0 {
                0
            } else {
                wanted - open_amount(open@.take(i as int), side, price)
            }),
        decreases open@.len() - i,
    {
        proof {
            assert(open@.take(i as int + 1).drop_last() =~= open@.take(i as int));
        }
        if open[i].order_type == side && open[i].price == price {
            hit = true;
            amount = amount.saturating_sub(open[i].amount);
        }
        i = i + 1;
    }
    proof {
        assert(open@.take(i as int) =~= open@);
    }
    if !hit || (amount >= min_order_size && amount > 0) {
        Some(MakeOrderRequest { order_type: side, price, amount })
    } else {
        None
    }
}

/// The placements on `side` for the sorted prices `prices`.
fn placements_for(
    open: &[Order],
    target: &[MakeOrderRequest],
    side: OrderType,
    min_order_size: u64,
    prices: &Vec<u64>,
) -> (r: Vec<MakeOrderRequest>)
    ensures
        r@ == placements(open@, target@, side, min_order_size, prices@),
{
    let mut r: Vec<MakeOrderRequest> = Vec::new();
    let mut i: usize = 0;
    while i < prices.len()
        invariant
            i <= prices@.len(),
            r@ == placements(open@, target@, side, min_order_size, prices@.take(i as int)),
        decreases prices@.len() - i,
    {
        proof {
            assert(prices@.take(i as int + 1).drop_last() =~= prices@.take(i as int));
        }
        match placement_at(open, target, side, prices[i], min_order_size) {
            Some(o) => r.push(o),
            None => {},
        }
        i = i + 1;
    }
    proof {
        assert(prices@.take(i as int) =~= prices@);
    }
    r
}

/// The orders to place so that the open orders reach the target: each target
/// price, reduced by what open orders on the same side already hold there and
/// dropped when that leaves nothing or less than `min_order_size`; bids from the highest
/// price down interleaved with asks from the lowest up, at most `max_to_place`.
pub fn calculate_orders_to_make(
    open_orders: &[Order],
    target_orders: Vec<MakeOrderRequest>,
    min_order_size: u64,
    max_orders_to_make: usize,
) -> (r: Vec<MakeOrderRequest>)
    ensures
        r@ == placement_plan(open_orders@, target_orders@, min_order_size, max_orders_to_make),
        r@.len() <= max_orders_to_make,
{
    let target = target_orders.as_slice();
    let bid_prices = sorted_target_prices(target, OrderType::Bid, true);
    let ask_prices = sorted_target_prices(target, OrderType::Ask, false);
    let bids = placements_for(open_orders, target, OrderType::Bid, min_order_size, &bid_prices);
    let asks = placements_for(open_orders, target, OrderType::Ask, min_order_size, &ask_prices);
    interleave_prefix(&bids, &asks, max_orders_to_make)
}

/// The indices, among the first `n` open orders, of those on `side` whose price
/// is no target price on that side, in their order.
pub open spec fn stale_indices(
    open: Seq<Order>,
    target: Seq<MakeOrderRequest>,
    side: OrderType,
    n: nat,
) -> Seq<usize>
    decreases n,
{
    if n == 0 {
        seq![]
    } else {
        let rest = stale_indices(open, target, side, (n - 1) as nat);
        let o = open[n - 1];
        if o.order_type == side && !has_target_price(target, side, o.price) {
            rest.push((n - 1) as usize)
        } else {
            rest
        }
    }
}

/// The number of open orders whose price is no target price on their side.
pub open spec fn stale_count(open: Seq<Order>, target: Seq<MakeOrderRequest>) -> nat {
    stale_indices(open, target, OrderType::Bid, open.len()).len() + stale_indices(
        open,
        target,
        OrderType::Ask,
        open.len(),
    ).len()
}

/// The index `k` added to `s` before the first open order that it precedes in price.
pub open spec fn insert_by_price(s: Seq<usize>, k: usize, open: Seq<Order>, descending: bool) -> Seq<usize>
    decreases s.len(),
{
    if s.len() == 0 {
        seq![k]
    } else if goes_before(open[k as int].price, open[s[0] as int].price, descending) {
        seq![k] + s
    } else {
        seq![s[0]] + insert_by_price(s.drop_first(), k, open, descending)
    }
}

/// The indices `s` stably sorted by the price of the open order they point at.
pub open spec fn sort_by_price(s: Seq<usize>, open: Seq<Order>, descending: bool) -> Seq<usize>
    decreases s.len(),
{
    if s.len() == 0 {
        s
    } else {
        insert_by_price(sort_by_price(s.drop_last(), open, descending), s.last(), open, descending)
    }
}

/// The stale bids, highest price first.
pub open spec fn stale_bids(open: Seq<Order>, target: Seq<MakeOrderRequest>) -> Seq<usize> {
    sort_by_price(stale_indices(open, target, OrderType::Bid, open.len()), open, true)
}

/// The stale asks, lowest price first.
pub open spec fn stale_asks(open: Seq<Order>, target: Seq<MakeOrderRequest>) -> Seq<usize> {
    sort_by_price(stale_indices(open, target, OrderType::Ask, open.len()), open, false)
}

/// The open orders that one iteration cancels, by index: stale bids and stale
/// asks interleaved from the inside out, bid first, at most `max_to_cancel`.
pub open spec fn cancellation_plan(
    open: Seq<Order>,
    target: Seq<MakeOrderRequest>,
    max_to_cancel: usize,
) -> Seq<usize> {
    prefix(interleave(stale_bids(open, target), stale_asks(open, target)), max_to_cancel as int)
}

proof fn lemma_insert_by_price_at(s: Seq<usize>, k: usize, open: Seq<Order>, descending: bool, j: int)
    requires
        0 <= j <= s.len(),
        forall|m: int|
            0 <= m < j ==> !goes_before(open[k as int].price, open[s[m] as int].price, descending),
        j < s.len() ==> goes_before(open[k as int].price, open[s[j] as int].price, descending),
    ensures
        insert_by_price(s, k, open, descending) == s.insert(j, k),
    decreases j,
{
    if j == 0 {
        assert(seq![k] + s =~= s.insert(0, k));
    } else {
        let t = s.drop_first();
        assert forall|m: int| 0 <= m < j - 1 implies !goes_before(
            open[k as int].price,
            open[t[m] as int].price,
            descending,
        ) by {
            assert(t[m] == s[m + 1]);
        }
        lemma_insert_by_price_at(t, k, open, descending, j - 1);
        assert(seq![s[0]] + t.insert(j - 1, k) =~= s.insert(j, k));
    }
}

fn insert_sorted_index(v: &mut Vec<usize>, k: usize, open: &[Order], descending: bool)
    requires
        k < open@.len(),
        forall|m: int| 0 <= m < old(v)@.len() ==> old(v)@[m] < open@.len(),
    ensures
        final(v)@ == insert_by_price(old(v)@, k, open@, descending),
        forall|m: int| 0 <= m < final(v)@.len() ==> final(v)@[m] < open@.len(),
{
    let mut j: usize = 0;
    while j < v.len() && !precedes(open[k].price, open[v[j]].price, descending)
        invariant
            j <= v@.len(),
            k < open@.len(),
            forall|m: int| 0 <= m < v@.len() ==> v@[m] < open@.len(),
            forall|m: int|
                0 <= m < j ==> !goes_before(open@[k as int].price, open@[v@[m] as int].price, descending),
        decreases v@.len() - j,
    {
        j = j + 1;
    }
    proof {
        lemma_insert_by_price_at(v@, k, open@, descending, j as int);
    }
    v.insert(j, k);
    proof {
        assert forall|m: int| 0 <= m < v@.len() implies v@[m] < open@.len() by {
            if m > j as int {
                assert(v@[m] == old(v)@[m - 1]);
            } else if m < j as int {
                assert(v@[m] == old(v)@[m]);
            }
        }
    }
}

/// The stale open orders on `side`, by index, sorted by price.
fn sorted_stale_indices(
    open: &[Order],
    target: &[MakeOrderRequest],
    side: OrderType,
    descending: bool,
) -> (r: Vec<usize>)
    ensures
        r@ == sort_by_price(stale_indices(open@, target@, side, open@.len()), open@, descending),
        forall|m: int| 0 <= m < r@.len() ==> r@[m] < open@.len(),
{
    let mut r: Vec<usize> = Vec::new();
    let mut i: usize = 0;
    while i < open.len()
        invariant
            i <= open@.len(),
            r@ == sort_by_price(stale_indices(open@, target@, side, i as nat), open@, descending),
            forall|m: int| 0 <= m < r@.len() ==> r@[m] < open@.len(),
        decreases open@.len() - i,
    {
        let ghost before = stale_indices(open@, target@, side, i as nat);
        if open[i].order_type == side && !targets_price(target, side, open[i].price) {
            proof {
                assert(before.push(i).drop_last() =~= before);
            }
            insert_sorted_index(&mut r, i, open, descending);
        }
        i = i + 1;
    }
    r
}

/// The open orders to cancel: those whose price is no target price on their
/// side, bids from the highest price down interleaved with asks from the
/// lowest up, at most `max_orders_to_cancel`, each by its id.
pub fn calculate_orders_to_cancel(
    open_orders: &[Order],
    target_orders: &[MakeOrderRequest],
    max_orders_to_cancel: usize,
) -> (r: Vec<CancelOrderRequest>)
    ensures
        r@.len() == cancellation_plan(open_orders@, target_orders@, max_orders_to_cancel).len(),
        forall|k: int|
            0 <= k < r@.len() ==> #[trigger] r@[k].id == open_orders@[cancellation_plan(
                open_orders@,
                target_orders@,
                max_orders_to_cancel,
            )[k] as int].id,
        r@.len() <= max_orders_to_cancel,
{
    let bids = sorted_stale_indices(open_orders, target_orders, OrderType::Bid, true);
    let asks = sorted_stale_indices(open_orders, target_orders, OrderType::Ask, false);
    let chosen = interleave_prefix(&bids, &asks, max_orders_to_cancel);
    let ghost plan = chosen@;
    proof {
        lemma_interleave_contains(bids@, asks@);
        assert forall|k: int| 0 <= k < plan.len() implies plan[k] < open_orders@.len() by {
            assert(plan.contains(plan[k]));
            lemma_prefix_contains(interleave(bids@, asks@), max_orders_to_cancel as int, plan[k]);
            if bids@.contains(plan[k]) {
                let m = choose|m: int| 0 <= m < bids@.len() && bids@[m] == plan[k];
            } else {
                let m = choose|m: int| 0 <= m < asks@.len() && asks@[m] == plan[k];
            }
        }
    }
    let mut r: Vec<CancelOrderRequest> = Vec::new();
    let mut k: usize = 0;
    while k < chosen.len()
        invariant
            plan == chosen@,
            k <= plan.len(),
            forall|m: int| 0 <= m < plan.len() ==> plan[m] < open_orders@.len(),
            r@.len() == k,
            forall|m: int| 0 <= m < k ==> #[trigger] r@[m].id == open_orders@[plan[m] as int].id,
        decreases plan.len() - k,
    {
        let id = open_orders[chosen[k]].id.clone();
        r.push(CancelOrderRequest { id });
        k = k + 1;
    }
    r
}

} // verus!
