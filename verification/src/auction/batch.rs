//! One batch: the orders of both sides are put in priority order, the curves
//! are built and crossed, the clearing quantity is handed out, the orders
//! filled in full leave the book and the others grow one batch older.

use crate::auction::clearing::{after_clearing, clear_orders, cleared_orders};
use crate::auction::crossing::{all_quotes, apart, crossing_of, intersect_demand_supply};
use crate::auction::curve::{curve_of, lemma_curve_runs, lemma_total_qty_take, orders_to_curve_segments, run_ends};
use crate::auction::guarantees::{
    cleared_prices_are_admissible,
    is_resting_book,
    lemma_cleared_prices_are_admissible,
    lemma_one_side_is_exhausted,
    lemma_price_is_a_midpoint,
    lemma_priority_is_respected,
    lemma_survivors_age_by_one,
    lemma_volume_is_conserved,
    one_side_is_exhausted,
    price_is_a_midpoint,
    priority_is_respected,
    side_aged_by_one,
    volume_is_conserved,
};
use crate::auction::order::{total_qty, Order, Qty, Side};
use crate::auction::priority::{
    by_priority,
    insert_by_priority,
    lemma_by_priority,
    sort_by_priority,
};
use crate::price::Price;
use vstd::prelude::*;

verus! {

/// What a batch has done.
#[derive(Clone, Debug, PartialEq)]
pub enum BatchReport {
    /// The curves did not cross, or crossed at no quantity.
    NoTrade,
    /// `qty` units trade at `price`; the two lists hold the orders that were
    /// filled in full, in priority order.
    Trade { price: Price, qty: Qty, cleared_bids: Vec<Order>, cleared_asks: Vec<Order> },
}

/// A batch report as a value.
pub enum Outcome {
    NoTrade,
    Trade { price: Price, qty: Qty, cleared_bids: Seq<Order>, cleared_asks: Seq<Order> },
}

impl View for BatchReport {
    type V = Outcome;

    open spec fn view(&self) -> Outcome {
        match *self {
            BatchReport::NoTrade => Outcome::NoTrade,
            BatchReport::Trade { price, qty, cleared_bids, cleared_asks } => Outcome::Trade {
                price,
                qty,
                cleared_bids: cleared_bids@,
                cleared_asks: cleared_asks@,
            },
        }
    }
}

/// The order `o` one batch older.
pub open spec fn aged(o: Order) -> Order {
    Order { qty: o.qty, price: o.price, seniority: (o.seniority + 1) as u64, cleared: o.cleared }
}

/// The orders of `s` that stay in the book after a batch, each one batch
/// older.
pub open spec fn survivors(s: Seq<Order>) -> Seq<Order>
    decreases s.len(),
{
    if s.len() == 0 {
        Seq::empty()
    } else if s.last().cleared {
        survivors(s.drop_last())
    } else {
        survivors(s.drop_last()).push(aged(s.last()))
    }
}

/// No order of `s` has reached the last seniority that can be counted.
pub open spec fn can_age(s: Seq<Order>) -> bool {
    forall|i: int| 0 <= i < s.len() ==> (#[trigger] s[i]).seniority < u64::MAX
}

/// Every price of `s` is one that the book accepts.
pub open spec fn all_quoted(s: Seq<Order>) -> bool {
    forall|i: int| 0 <= i < s.len() ==> (#[trigger] s[i]).price.is_quote()
}

/// One side of the book is within what a batch can count.
pub open spec fn side_fits(s: Seq<Order>) -> bool {
    &&& total_qty(s) <= Qty::MAX
    &&& all_quoted(s)
    &&& can_age(s)
}

/// The book is within what a batch can count: on each side the quantities
/// sum to a `Qty`, the prices are ones that the book accepts, and every order
/// can grow one batch older.
pub open spec fn fits_batch(bids: Seq<Order>, asks: Seq<Order>) -> bool {
    side_fits(bids) && side_fits(asks)
}

/// What a batch makes of the book `bids`, `asks`: its report and the two
/// sides as it leaves them.
pub open spec fn is_outcome(
    bids: Seq<Order>,
    asks: Seq<Order>,
    report: Outcome,
    bids_after: Seq<Order>,
    asks_after: Seq<Order>,
) -> bool {
    let b = by_priority(bids, Side::Bid);
    let a = by_priority(asks, Side::Ask);
    let d = curve_of(b);
    let s = curve_of(a);
    let at = crossing_of(d, s);
    if apart(d, s) || at.qty == 0 {
        &&& report is NoTrade
        &&& bids_after == survivors(b)
        &&& asks_after == survivors(a)
    } else {
        &&& report matches Outcome::Trade { price, qty, cleared_bids, cleared_asks }
        &&& qty == at.qty
        &&& 2 * price@ == d[at.bid].price@ + s[at.ask].price@
        &&& price.is_canonical()
        &&& cleared_bids == cleared_orders(b, Side::Bid, price, qty as int)
        &&& cleared_asks == cleared_orders(a, Side::Ask, price, qty as int)
        &&& bids_after == survivors(after_clearing(b, Side::Bid, price, qty as int))
        &&& asks_after == survivors(after_clearing(a, Side::Ask, price, qty as int))
    }
}

/// Putting an order in adds its quantity.
pub proof fn lemma_insert_total(s: Seq<Order>, x: Order, side: Side)
    ensures
        total_qty(insert_by_priority(s, x, side)) == total_qty(s) + x.qty,
    decreases s.len(),
{
    if s.len() > 0 && crate::auction::priority::outranks(side, x, s.last()) {
        let front = s.drop_last();
        lemma_insert_total(front, x, side);
        let r = insert_by_priority(front, x, side).push(s.last());
        assert(r.drop_last() =~= insert_by_priority(front, x, side));
    } else {
        assert(s.push(x).drop_last() =~= s);
    }
}

/// Ordering a side keeps its quantity.
pub proof fn lemma_by_priority_total(s: Seq<Order>, side: Side)
    ensures
        total_qty(by_priority(s, side)) == total_qty(s),
    decreases s.len(),
{
    if s.len() > 0 {
        lemma_by_priority_total(s.drop_last(), side);
        lemma_insert_total(by_priority(s.drop_last(), side), s.last(), side);
    }
}

/// Every order of an ordered side is an order of the side.
pub proof fn lemma_by_priority_members(s: Seq<Order>, side: Side)
    ensures
        forall|i: int|
            0 <= i < by_priority(s, side).len() ==> s.contains(#[trigger] by_priority(s, side)[i]),
{
    broadcast use vstd::seq_lib::group_to_multiset_ensures;

    lemma_by_priority(s, side);
    let r = by_priority(s, side);
    assert forall|i: int| 0 <= i < r.len() implies s.contains(#[trigger] r[i]) by {
        assert(r.contains(r[i]));
        assert(r.to_multiset().count(r[i]) > 0);
    }
}

/// Ordering a side keeps it within what a batch can count.
pub proof fn lemma_by_priority_fits(s: Seq<Order>, side: Side)
    requires
        side_fits(s),
    ensures
        side_fits(by_priority(s, side)),
{
    lemma_by_priority_total(s, side);
    lemma_by_priority_members(s, side);
    let r = by_priority(s, side);
    assert forall|i: int| 0 <= i < r.len() implies (#[trigger] r[i]).price.is_quote() && r[i].seniority
        < u64::MAX by {
        let k = choose|k: int| 0 <= k < s.len() && s[k] == r[i];
        assert(s[k].price.is_quote());
        assert(s[k].seniority < u64::MAX);
    }
}

/// Every price along the curve of a side is the price of one of its orders.
pub proof fn lemma_curve_quotes(s: Seq<Order>)
    requires
        total_qty(s) <= Qty::MAX,
        all_quoted(s),
    ensures
        all_quotes(curve_of(s)),
{
    lemma_curve_runs(s);
    let c = curve_of(s);
    let e = run_ends(s);
    assert forall|i: int| 0 <= i < c.len() implies (#[trigger] c[i]).price.is_quote() by {
        if i == 0 {
            assert(s[0].price == c[0].price);
        } else {
            let k = i - 1;
            assert(s[e[k]].price == c[k + 1].price);
        }
    }
}

/// Whether one side of the book is within what a batch can count.
pub fn side_ready(orders: &[Order]) -> (b: bool)
    ensures
        b == side_fits(orders@),
{
    let mut total: u64 = 0;
    let mut i: usize = 0;
    while i < orders.len()
        invariant
            i <= orders.len(),
            total == total_qty(orders@.take(i as int)),
            total <= Qty::MAX,
            all_quoted(orders@.take(i as int)),
            can_age(orders@.take(i as int)),
        decreases orders.len() - i,
    {
        let order = orders[i];
        proof {
            lemma_total_qty_take(orders@, i as int);
            lemma_total_qty_take(orders@, i + 1);
        }
        if !order.price.fits_book() || order.seniority == u64::MAX {
            return false;
        }
        total = total + order.qty as u64;
        if total > 0xffff_ffff {
            return false;
        }
        i = i + 1;
        assert forall|k: int| 0 <= k < i implies (#[trigger] orders@.take(i as int)[k]).price.is_quote()
            && orders@.take(i as int)[k].seniority < u64::MAX by {
            if k < i - 1 {
                assert(orders@.take(i as int)[k] == orders@.take(i - 1)[k]);
            }
        }
    }
    assert(orders@.take(i as int) =~= orders@);
    true
}

/// Whether the book is within what a batch can count.
pub fn batch_ready(bids: &[Order], asks: &[Order]) -> (b: bool)
    ensures
        b == fits_batch(bids@, asks@),
{
    side_ready(bids) && side_ready(asks)
}

/// Takes the orders filled in full out of one side and makes the others one
/// batch older.
pub fn settle(orders: &mut Vec<Order>)
    requires
        can_age(old(orders)@),
    ensures
        final(orders)@ == survivors(old(orders)@),
{
    let mut kept: Vec<Order> = Vec::new();
    let mut i: usize = 0;
    while i < orders.len()
        invariant
            i <= orders.len(),
            orders@ == old(orders)@,
            can_age(orders@),
            kept@ == survivors(orders@.take(i as int)),
        decreases orders.len() - i,
    {
        let mut order = orders[i];
        proof {
            assert(orders@.take(i + 1).drop_last() =~= orders@.take(i as int));
        }
        if !order.cleared {
            order.seniority = order.seniority + 1;
            kept.push(order);
        }
        i = i + 1;
    }
    assert(orders@.take(i as int) =~= orders@);
    *orders = kept;
}

/// Runs one batch on the book and reports the trade, if there is one.
///
/// Both sides are put in priority order and their curves are crossed. Where
/// the curves cross at some quantity, that quantity is handed out on both
/// sides at the clearing price, and the orders filled in full leave the book.
/// Every order that stays grows one batch older, whether there was a trade or
/// not.
pub fn calculate_batch(bids: &mut Vec<Order>, asks: &mut Vec<Order>) -> (report: BatchReport)
    requires
        fits_batch(old(bids)@, old(asks)@),
    ensures
        is_outcome(old(bids)@, old(asks)@, report@, final(bids)@, final(asks)@),
        cleared_prices_are_admissible(report@),
        is_resting_book(old(bids)@, old(asks)@) ==> {
            &&& volume_is_conserved(old(bids)@, old(asks)@, report@, final(bids)@, final(asks)@)
            &&& priority_is_respected(old(bids)@, old(asks)@, report@, final(bids)@, final(asks)@)
            &&& one_side_is_exhausted(report@, final(bids)@, final(asks)@)
            &&& price_is_a_midpoint(old(bids)@, old(asks)@, report@)
            &&& side_aged_by_one(old(bids)@, final(bids)@)
            &&& side_aged_by_one(old(asks)@, final(asks)@)
        },
{
    proof {
        lemma_by_priority_fits(bids@, Side::Bid);
        lemma_by_priority_fits(asks@, Side::Ask);
    }
    sort_by_priority(bids, Side::Bid);
    sort_by_priority(asks, Side::Ask);
    let demand = orders_to_curve_segments(bids.as_slice());
    let supply = orders_to_curve_segments(asks.as_slice());
    proof {
        lemma_curve_quotes(bids@);
        lemma_curve_quotes(asks@);
    }
    let report = match intersect_demand_supply(demand.as_slice(), supply.as_slice()) {
        None => BatchReport::NoTrade,
        Some((p_star, q_star)) => {
            if q_star == 0 {
                BatchReport::NoTrade
            } else {
                let cleared_bids = clear_orders(bids, &p_star, q_star, Side::Bid);
                let cleared_asks = clear_orders(asks, &p_star, q_star, Side::Ask);
                BatchReport::Trade { price: p_star, qty: q_star, cleared_bids, cleared_asks }
            }
        },
    };
    settle(bids);
    settle(asks);
    proof {
        let (b0, a0) = (old(bids)@, old(asks)@);
        lemma_cleared_prices_are_admissible(b0, a0, report@, bids@, asks@);
        if is_resting_book(b0, a0) {
            lemma_volume_is_conserved(b0, a0, report@, bids@, asks@);
            lemma_priority_is_respected(b0, a0, report@, bids@, asks@);
            lemma_one_side_is_exhausted(b0, a0, report@, bids@, asks@);
            lemma_price_is_a_midpoint(b0, a0, report@, bids@, asks@);
            lemma_survivors_age_by_one(b0, a0, report@, bids@, asks@);
        }
    }
    report
}

} // verus!
