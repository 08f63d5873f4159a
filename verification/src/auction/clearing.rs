//! Handing the clearing quantity to the orders of one side.
//!
//! The orders are walked in priority order. Every order that may trade at the
//! clearing price is filled in full while the quantity lasts; the first one
//! that the rest does not cover takes the rest and stays in the book.

use crate::auction::curve::lemma_total_qty_take;
use crate::auction::order::{total_qty, Order, Qty, Side};
use crate::price::Price;
use vstd::prelude::*;

verus! {

/// Whether an order on `side` may trade at the price `p`.
pub open spec fn eligible(side: Side, o: Order, p: Price) -> bool {
    match side {
        Side::Bid => o.price@ >= p@,
        Side::Ask => o.price@ <= p@,
    }
}

/// The order `o` once it is filled in full.
pub open spec fn filled(o: Order) -> Order {
    Order { qty: o.qty, price: o.price, seniority: o.seniority, cleared: true }
}

/// The order `o` with `taken` of its quantity gone.
pub open spec fn reduced(o: Order, taken: int) -> Order {
    Order { qty: (o.qty - taken) as Qty, price: o.price, seniority: o.seniority, cleared: o.cleared }
}

/// The number of orders at the front of `s` that are filled in full when the
/// walk stands at order `k` with the quantity `q` left.
pub open spec fn filled_upto(s: Seq<Order>, side: Side, p: Price, q: int, k: int) -> int
    decreases s.len() - k,
{
    if 0 <= k < s.len() && eligible(side, s[k], p) && s[k].qty <= q {
        filled_upto(s, side, p, q - s[k].qty, k + 1)
    } else {
        k
    }
}

/// The number of orders of `s` that the quantity `q` fills in full at the
/// price `p`.
pub open spec fn fill_count(s: Seq<Order>, side: Side, p: Price, q: int) -> int {
    filled_upto(s, side, p, q, 0)
}

/// Whether an order is left that may trade at `p` and takes what the orders
/// filled in full have left of `q`.
pub open spec fn has_partial(s: Seq<Order>, side: Side, p: Price, q: int) -> bool {
    let n = fill_count(s, side, p, q);
    n < s.len() && eligible(side, s[n], p)
}

/// What the orders filled in full have left of `q`.
pub open spec fn left_over(s: Seq<Order>, side: Side, p: Price, q: int) -> int {
    q - total_qty(s.take(fill_count(s, side, p, q)))
}

/// The quantity that goes to the order that takes the rest, if there is one.
pub open spec fn partial_fill(s: Seq<Order>, side: Side, p: Price, q: int) -> int {
    if has_partial(s, side, p, q) {
        left_over(s, side, p, q)
    } else {
        0
    }
}

/// The orders that `q` fills in full, as the report shows them.
pub open spec fn cleared_orders(s: Seq<Order>, side: Side, p: Price, q: int) -> Seq<Order> {
    Seq::new(fill_count(s, side, p, q) as nat, |k: int| filled(s[k]))
}

/// The side after the quantity `q` has been handed out at the price `p`.
pub open spec fn after_clearing(s: Seq<Order>, side: Side, p: Price, q: int) -> Seq<Order> {
    let n = fill_count(s, side, p, q);
    Seq::new(
        s.len(),
        |k: int|
            if k < n {
                filled(s[k])
            } else if k == n && eligible(side, s[k], p) {
                reduced(s[k], left_over(s, side, p, q))
            } else {
                s[k]
            },
    )
}

/// What `filled_upto` counts: orders that may trade and that the quantity
/// covers, up to the first order that may not trade or is not covered.
pub proof fn lemma_filled_upto(s: Seq<Order>, side: Side, p: Price, q: int, k: int)
    requires
        0 <= k <= s.len(),
        0 <= q,
    ensures
        ({
            let n = filled_upto(s, side, p, q, k);
            let rest = q - (total_qty(s.take(n)) - total_qty(s.take(k)));
            &&& k <= n <= s.len()
            &&& forall|x: int| k <= x < n ==> eligible(side, #[trigger] s[x], p)
            &&& 0 <= rest
            &&& n < s.len() && eligible(side, s[n], p) ==> s[n].qty > rest
        }),
    decreases s.len() - k,
{
    if k < s.len() && eligible(side, s[k], p) && s[k].qty <= q {
        lemma_filled_upto(s, side, p, q - s[k].qty, k + 1);
        lemma_total_qty_take(s, k);
    }
}

/// What `fill_count` counts.
pub proof fn lemma_fill_count(s: Seq<Order>, side: Side, p: Price, q: int)
    requires
        0 <= q,
    ensures
        ({
            let n = fill_count(s, side, p, q);
            &&& 0 <= n <= s.len()
            &&& forall|x: int| 0 <= x < n ==> eligible(side, #[trigger] s[x], p)
            &&& 0 <= left_over(s, side, p, q) <= q
            &&& has_partial(s, side, p, q) ==> s[n].qty > left_over(s, side, p, q)
        }),
{
    lemma_filled_upto(s, side, p, q, 0);
    assert(s.take(0) =~= Seq::<Order>::empty());
    lemma_total_qty_take(s, fill_count(s, side, p, q));
}

/// The orders filled in full carry the quantity of the orders they were.
pub proof fn lemma_cleared_total(s: Seq<Order>, side: Side, p: Price, q: int)
    requires
        0 <= q,
    ensures
        total_qty(cleared_orders(s, side, p, q)) == total_qty(s.take(fill_count(s, side, p, q))),
{
    lemma_fill_count(s, side, p, q);
    let n = fill_count(s, side, p, q);
    lemma_same_quantities(cleared_orders(s, side, p, q), s.take(n));
}

/// Sequences that agree in every quantity agree in their total.
pub proof fn lemma_same_quantities(a: Seq<Order>, b: Seq<Order>)
    requires
        a.len() == b.len(),
        forall|k: int| 0 <= k < a.len() ==> a[k].qty == b[k].qty,
    ensures
        total_qty(a) == total_qty(b),
    decreases a.len(),
{
    if a.len() > 0 {
        lemma_same_quantities(a.drop_last(), b.drop_last());
    }
}

/// Whether an order on `side` may trade at the price `p`.
pub fn may_trade(side: Side, order: &Order, p: &Price) -> (r: bool)
    ensures
        r == eligible(side, *order, *p),
{
    match side {
        Side::Bid => !order.price.is_below(p),
        Side::Ask => !order.price.is_above(p),
    }
}

/// Hands the quantity `q_star` to the orders of one side at the price
/// `p_star` and returns the orders filled in full, in priority order, as they
/// stand after the fill. Those orders are marked in the book; the order that
/// takes the rest, if there is one, has its quantity brought down.
pub fn clear_orders(orders: &mut Vec<Order>, p_star: &Price, q_star: Qty, side: Side) -> (cleared: Vec<
    Order,
>)
    ensures
        cleared@ == cleared_orders(old(orders)@, side, *p_star, q_star as int),
        final(orders)@ == after_clearing(old(orders)@, side, *p_star, q_star as int),
        forall|k: int| 0 <= k < cleared@.len() ==> eligible(side, #[trigger] cleared@[k], *p_star),
        total_qty(cleared@) + left_over(old(orders)@, side, *p_star, q_star as int) == q_star,
        total_qty(old(orders)@) - total_qty(final(orders)@) == partial_fill(
            old(orders)@,
            side,
            *p_star,
            q_star as int,
        ),
        has_partial(old(orders)@, side, *p_star, q_star as int) ==> total_qty(cleared@)
            + partial_fill(old(orders)@, side, *p_star, q_star as int) == q_star,
        total_qty(cleared@) + partial_fill(old(orders)@, side, *p_star, q_star as int) <= q_star,
{
    let ghost before = orders@;
    let ghost n = fill_count(before, side, *p_star, q_star as int);
    let mut cleared: Vec<Order> = Vec::new();
    let mut rest: Qty = q_star;
    let mut i: usize = 0;
    proof {
        assert(before.take(0) =~= Seq::<Order>::empty());
    }
    while i < orders.len() && may_trade(side, &orders[i], p_star) && orders[i].qty <= rest
        invariant
            i <= before.len(),
            orders@.len() == before.len(),
            n == filled_upto(before, side, *p_star, rest as int, i as int),
            rest == q_star - total_qty(before.take(i as int)),
            cleared@ == Seq::new(i as nat, |k: int| filled(before[k])),
            orders@ == Seq::new(
                before.len(),
                |k: int|
                    if k < i {
                        filled(before[k])
                    } else {
                        before[k]
                    },
            ),
        decreases before.len() - i,
    {
        let mut order = orders[i];
        proof {
            lemma_total_qty_take(before, i as int);
        }
        order.cleared = true;
        rest = rest - order.qty;
        orders[i] = order;
        cleared.push(order);
        i = i + 1;
        assert(cleared@ =~= Seq::new(i as nat, |k: int| filled(before[k])));
        assert(orders@ =~= Seq::new(
            before.len(),
            |k: int|
                if k < i {
                    filled(before[k])
                } else {
                    before[k]
                },
        ));
    }
    assert(i == n);
    if i < orders.len() && may_trade(side, &orders[i], p_star) {
        let mut order = orders[i];
        order.qty = order.qty - rest;
        orders[i] = order;
    }
    proof {
        lemma_fill_count(before, side, *p_star, q_star as int);
        lemma_cleared_total(before, side, *p_star, q_star as int);
        assert(orders@ =~= after_clearing(before, side, *p_star, q_star as int));
        assert(cleared@ =~= cleared_orders(before, side, *p_star, q_star as int));
        lemma_after_clearing_total(before, side, *p_star, q_star as int);
    }
    cleared
}

/// The clearing brings the quantity of a side down by what goes to the order
/// that takes the rest: the orders filled in full still stand there.
pub proof fn lemma_after_clearing_total(s: Seq<Order>, side: Side, p: Price, q: int)
    requires
        0 <= q,
    ensures
        total_qty(s) - total_qty(after_clearing(s, side, p, q)) == partial_fill(s, side, p, q),
{
    lemma_fill_count(s, side, p, q);
    let n = fill_count(s, side, p, q);
    let t = after_clearing(s, side, p, q);
    if has_partial(s, side, p, q) {
        let taken = left_over(s, side, p, q);
        lemma_one_quantity_less(s, t, n, taken);
    } else {
        lemma_same_quantities(s, t);
    }
}

/// Sequences that agree in every quantity but one differ in their total by
/// what that one differs.
pub proof fn lemma_one_quantity_less(a: Seq<Order>, b: Seq<Order>, at: int, taken: int)
    requires
        a.len() == b.len(),
        0 <= at < a.len(),
        b[at].qty == a[at].qty - taken,
        forall|k: int| 0 <= k < a.len() && k != at ==> a[k].qty == b[k].qty,
    ensures
        total_qty(a) - total_qty(b) == taken,
    decreases a.len(),
{
    if at == a.len() - 1 {
        lemma_same_quantities(a.drop_last(), b.drop_last());
    } else {
        lemma_one_quantity_less(a.drop_last(), b.drop_last(), at, taken);
    }
}

} // verus!
