//! Properties that relate the reconciler's two calculations and its inputs.
use crate::model::{CancelOrderRequest, MakeOrderRequest, Order, OrderType};
use crate::reconcile::{
    ask_placements, bid_placements, cancellation_plan, goes_before, has_open_order,
    has_target_price, insert_by_price, lemma_open_amount_nonneg, lemma_placements_facts,
    lemma_target_prices_are_targets, open_amount, placement_plan, remaining_amount,
    sort_by_price, stale_asks, stale_bids, stale_count, stale_indices, still_wanted, target_amount,
    target_prices,
};
use crate::sequence::{interleave, lemma_cons_contains, lemma_interleave_contains, lemma_prefix_contains};
use vstd::prelude::*;

verus! {

proof fn lemma_insert_by_price_contains(s: Seq<usize>, k: usize, open: Seq<Order>, descending: bool, x: usize)
    ensures
        insert_by_price(s, k, open, descending).contains(x) <==> (x == k || s.contains(x)),
        insert_by_price(s, k, open, descending).len() == s.len() + 1,
    decreases s.len(),
{
    let r = insert_by_price(s, k, open, descending);
    if s.len() == 0 {
        assert(r == seq![k]);
        if x == k {
            assert(r[0] == x);
        }
    } else {
        let t = s.drop_first();
        assert(seq![s[0]] + t =~= s);
        lemma_cons_contains(s[0], t, x);
        if goes_before(open[k as int].price, open[s[0] as int].price, descending) {
            assert(r == seq![k] + s);
            lemma_cons_contains(k, s, x);
        } else {
            let u = insert_by_price(t, k, open, descending);
            assert(r == seq![s[0]] + u);
            lemma_insert_by_price_contains(t, k, open, descending, x);
            lemma_cons_contains(s[0], u, x);
        }
    }
}

proof fn lemma_sort_by_price_contains(s: Seq<usize>, open: Seq<Order>, descending: bool, x: usize)
    ensures
        sort_by_price(s, open, descending).contains(x) <==> s.contains(x),
        sort_by_price(s, open, descending).len() == s.len(),
    decreases s.len(),
{
    if s.len() > 0 {
        let t = s.drop_last();
        lemma_sort_by_price_contains(t, open, descending, x);
        lemma_insert_by_price_contains(sort_by_price(t, open, descending), s.last(), open, descending, x);
        if s.contains(x) && x != s.last() {
            let m = choose|m: int| 0 <= m < s.len() && s[m] == x;
            assert(t[m] == x);
        }
        if t.contains(x) {
            let m = choose|m: int| 0 <= m < t.len() && t[m] == x;
            assert(s[m] == x);
        }
        if x == s.last() {
            assert(s[s.len() - 1] == x);
        }
    }
}

/// The stale indices on a side are exactly the open orders on that side whose
/// price is no target price there.
pub proof fn lemma_stale_indices_contains(
    open: Seq<Order>,
    target: Seq<MakeOrderRequest>,
    side: OrderType,
    n: nat,
    x: usize,
)
    requires
        n <= open.len(),
        open.len() <= usize::MAX,
    ensures
        stale_indices(open, target, side, n).contains(x) <==> (x < n && open[x as int].order_type
            == side && !has_target_price(target, side, open[x as int].price)),
    decreases n,
{
    if n > 0 {
        let rest = stale_indices(open, target, side, (n - 1) as nat);
        lemma_stale_indices_contains(open, target, side, (n - 1) as nat, x);
        let s = stale_indices(open, target, side, n);
        if s != rest {
            assert(s == rest.push((n - 1) as usize));
            if s.contains(x) && x != (n - 1) as usize {
                let m = choose|m: int| 0 <= m < s.len() && s[m] == x;
                assert(rest[m] == x);
            }
            if rest.contains(x) {
                let m = choose|m: int| 0 <= m < rest.len() && rest[m] == x;
                assert(s[m] == x);
            }
            if x == (n - 1) as usize {
                assert(s[s.len() - 1] == x);
            }
        }
    }
}

proof fn lemma_has_open_order(open: Seq<Order>, i: int)
    requires
        0 <= i < open.len(),
    ensures
        has_open_order(open, open[i].order_type, open[i].price),
        open_amount(open, open[i].order_type, open[i].price) >= open[i].amount,
    decreases open.len(),
{
    let side = open[i].order_type;
    let price = open[i].price;
    if i < open.len() - 1 {
        let t = open.drop_last();
        assert(t[i] == open[i]);
        lemma_has_open_order(t, i);
        lemma_open_amount_nonneg(open, side, price);
    } else {
        lemma_open_amount_nonneg(open.drop_last(), side, price);
    }
}

/// Every placement of an iteration is at a target price on its side, still
/// wanted there, and for the amount that is left of that target.
pub proof fn lemma_placement_facts(
    open: Seq<Order>,
    target: Seq<MakeOrderRequest>,
    min_order_size: u64,
    max_to_place: usize,
    x: MakeOrderRequest,
)
    requires
        placement_plan(open, target, min_order_size, max_to_place).contains(x),
    ensures
        has_target_price(target, x.order_type, x.price),
        still_wanted(open, target, x.order_type, x.price, min_order_size),
        x.amount == remaining_amount(open, target, x.order_type, x.price),
{
    let b = bid_placements(open, target, min_order_size);
    let a = ask_placements(open, target, min_order_size);
    lemma_prefix_contains(interleave(b, a), max_to_place as int, x);
    lemma_interleave_contains(b, a);
    if b.contains(x) {
        lemma_placements_facts(open, target, OrderType::Bid, min_order_size, target_prices(target, OrderType::Bid, true), x);
        lemma_target_prices_are_targets(target, OrderType::Bid, true, x.price);
    } else {
        lemma_placements_facts(open, target, OrderType::Ask, min_order_size, target_prices(target, OrderType::Ask, false), x);
        lemma_target_prices_are_targets(target, OrderType::Ask, false, x.price);
    }
}

/// Every open order that an iteration cancels has a price that is no target
/// price on its side.
pub proof fn lemma_cancellation_facts(
    open: Seq<Order>,
    target: Seq<MakeOrderRequest>,
    max_to_cancel: usize,
    i: usize,
)
    requires
        open.len() <= usize::MAX,
        cancellation_plan(open, target, max_to_cancel).contains(i),
    ensures
        i < open.len(),
        !has_target_price(target, open[i as int].order_type, open[i as int].price),
{
    let b = stale_bids(open, target);
    let a = stale_asks(open, target);
    lemma_prefix_contains(interleave(b, a), max_to_cancel as int, i);
    lemma_interleave_contains(b, a);
    lemma_sort_by_price_contains(stale_indices(open, target, OrderType::Bid, open.len()), open, true, i);
    lemma_sort_by_price_contains(stale_indices(open, target, OrderType::Ask, open.len()), open, false, i);
    lemma_stale_indices_contains(open, target, OrderType::Bid, open.len(), i);
    lemma_stale_indices_contains(open, target, OrderType::Ask, open.len(), i);
}

/// The two calculations never work against each other: no open order that is
/// cancelled sits on the side and at the price of a placement of the same
/// snapshot.
pub proof fn lemma_place_and_cancel_disjoint(
    open: Seq<Order>,
    target: Seq<MakeOrderRequest>,
    min_order_size: u64,
    max_to_place: usize,
    max_to_cancel: usize,
    k: int,
    l: int,
)
    requires
        open.len() <= usize::MAX,
        0 <= k < cancellation_plan(open, target, max_to_cancel).len(),
        0 <= l < placement_plan(open, target, min_order_size, max_to_place).len(),
    ensures
        ({
            let o = open[cancellation_plan(open, target, max_to_cancel)[k] as int];
            let x = placement_plan(open, target, min_order_size, max_to_place)[l];
            !(o.order_type == x.order_type && o.price == x.price)
        }),
{
    let c = cancellation_plan(open, target, max_to_cancel);
    let p = placement_plan(open, target, min_order_size, max_to_place);
    assert(c.contains(c[k]));
    assert(p.contains(p[l]));
    lemma_cancellation_facts(open, target, max_to_cancel, c[k]);
    lemma_placement_facts(open, target, min_order_size, max_to_place, p[l]);
}

/// An open order at a target price whose amount covers that target suppresses
/// any placement there.
pub proof fn lemma_covered_target_not_placed(
    open: Seq<Order>,
    target: Seq<MakeOrderRequest>,
    min_order_size: u64,
    max_to_place: usize,
    i: int,
)
    requires
        0 <= i < open.len(),
        has_target_price(target, open[i].order_type, open[i].price),
        open[i].amount >= target_amount(target, open[i].order_type, open[i].price),
    ensures
        forall|l: int|
            0 <= l < placement_plan(open, target, min_order_size, max_to_place).len() ==> {
                let x = #[trigger] placement_plan(open, target, min_order_size, max_to_place)[l];
                !(x.order_type == open[i].order_type && x.price == open[i].price)
            },
{
    let p = placement_plan(open, target, min_order_size, max_to_place);
    lemma_has_open_order(open, i);
    assert forall|l: int| 0 <= l < p.len() implies !(p[l].order_type == open[i].order_type
        && p[l].price == open[i].price) by {
        assert(p.contains(p[l]));
        lemma_placement_facts(open, target, min_order_size, max_to_place, p[l]);
    }
}

/// An iteration cancels as many open orders as are off target, up to the cap.
pub proof fn lemma_cancellation_count(open: Seq<Order>, target: Seq<MakeOrderRequest>, max_to_cancel: usize)
    ensures
        cancellation_plan(open, target, max_to_cancel).len() == (if max_to_cancel < stale_count(open, target) {
            max_to_cancel as nat
        } else {
            stale_count(open, target)
        }),
{
    let sb = stale_indices(open, target, OrderType::Bid, open.len());
    let sa = stale_indices(open, target, OrderType::Ask, open.len());
    lemma_sort_by_price_contains(sb, open, true, 0);
    lemma_sort_by_price_contains(sa, open, false, 0);
    lemma_interleave_contains(stale_bids(open, target), stale_asks(open, target));
}

/// An open order whose price is no target price on its side is a cancellation
/// candidate, and it is cancelled whenever the cap is at least the number of
/// such orders.
pub proof fn lemma_off_target_is_eligible(
    open: Seq<Order>,
    target: Seq<MakeOrderRequest>,
    max_to_cancel: usize,
    i: usize,
)
    requires
        open.len() <= usize::MAX,
        i < open.len(),
        !has_target_price(target, open[i as int].order_type, open[i as int].price),
    ensures
        interleave(stale_bids(open, target), stale_asks(open, target)).contains(i),
        max_to_cancel >= stale_count(open, target) ==> cancellation_plan(open, target, max_to_cancel).contains(i),
{
    let sb = stale_indices(open, target, OrderType::Bid, open.len());
    let sa = stale_indices(open, target, OrderType::Ask, open.len());
    lemma_stale_indices_contains(open, target, OrderType::Bid, open.len(), i);
    lemma_stale_indices_contains(open, target, OrderType::Ask, open.len(), i);
    lemma_sort_by_price_contains(sb, open, true, i);
    lemma_sort_by_price_contains(sa, open, false, i);
    lemma_interleave_contains(stale_bids(open, target), stale_asks(open, target));
}

/// The reconciler is deterministic: two results that meet the contracts of
/// `calculate_orders_to_make` and `calculate_orders_to_cancel` on the same
/// inputs are the same requests.
pub proof fn lemma_reconcile_deterministic(
    open: Seq<Order>,
    target: Seq<MakeOrderRequest>,
    min_order_size: u64,
    max_to_place: usize,
    max_to_cancel: usize,
    place1: Seq<MakeOrderRequest>,
    place2: Seq<MakeOrderRequest>,
    cancel1: Seq<CancelOrderRequest>,
    cancel2: Seq<CancelOrderRequest>,
)
    requires
        place1 == placement_plan(open, target, min_order_size, max_to_place),
        place2 == placement_plan(open, target, min_order_size, max_to_place),
        cancel1.len() == cancellation_plan(open, target, max_to_cancel).len(),
        cancel2.len() == cancellation_plan(open, target, max_to_cancel).len(),
        forall|k: int|
            0 <= k < cancel1.len() ==> #[trigger] cancel1[k].id == open[cancellation_plan(
                open,
                target,
                max_to_cancel,
            )[k] as int].id,
        forall|k: int|
            0 <= k < cancel2.len() ==> #[trigger] cancel2[k].id == open[cancellation_plan(
                open,
                target,
                max_to_cancel,
            )[k] as int].id,
    ensures
        place1 == place2,
        cancel1 =~= cancel2,
{
    assert forall|k: int| 0 <= k < cancel1.len() implies cancel1[k] == cancel2[k] by {
        assert(cancel1[k].id == cancel2[k].id);
    }
}

} // verus!
