//! What every batch guarantees, proved of the outcome that `calculate_batch`
//! promises.

use crate::auction::batch::{
    aged,
    can_age,
    fits_batch,
    is_outcome,
    lemma_by_priority_fits,
    lemma_by_priority_members,
    lemma_by_priority_total,
    survivors,
    Outcome,
};
use crate::auction::clearing::{
    after_clearing,
    cleared_orders,
    eligible,
    fill_count,
    filled_upto,
    has_partial,
    lemma_after_clearing_total,
    lemma_cleared_total,
    lemma_fill_count,
    lemma_filled_upto,
    partial_fill,
};
use crate::auction::crossing::{crossing_of, lemma_crossing, meets};
use crate::auction::curve::{
    all_positive,
    curve_of,
    lemma_curve_prices_differ,
    lemma_curve_runs,
    lemma_run_ends_rise,
    lemma_total_qty_take,
    prices_grouped,
    run_ends,
};
use crate::auction::order::{all_resting, total_qty, Order, Qty, Side};
use crate::auction::priority::{by_priority, in_priority_order, lemma_by_priority, outranks};
use crate::price::{lemma_canonical_is_unique, Price};
use vstd::prelude::*;

verus! {

/// A book between two batches: within what a batch can count, and every
/// order resting.
pub open spec fn is_resting_book(bids: Seq<Order>, asks: Seq<Order>) -> bool {
    &&& fits_batch(bids, asks)
    &&& all_resting(bids)
    &&& all_resting(asks)
}

/// Whether the price `a` may trade at the price `p` on `side`.
pub open spec fn price_eligible(side: Side, a: Price, p: Price) -> bool {
    match side {
        Side::Bid => a@ >= p@,
        Side::Ask => a@ <= p@,
    }
}

/// Along a side in priority order the prices do not get better.
pub proof fn lemma_prices_along(s: Seq<Order>, side: Side, x: int, y: int)
    requires
        in_priority_order(s, side),
        0 <= x <= y < s.len(),
    ensures
        match side {
            Side::Bid => s[x].price@ >= s[y].price@,
            Side::Ask => s[x].price@ <= s[y].price@,
        },
{
    if x < y {
        assert(!outranks(side, s[y], s[x]));
    }
}

/// A side in priority order has the orders of each price standing together.
pub proof fn lemma_ordered_side_is_grouped(s: Seq<Order>, side: Side)
    requires
        in_priority_order(s, side),
    ensures
        prices_grouped(s),
{
    assert forall|i: int, j: int, k: int|
        0 <= i < j < k < s.len() && s[i].price@ == s[k].price@ implies s[j].price@ == s[i].price@ by {
        lemma_prices_along(s, side, i, j);
        lemma_prices_along(s, side, j, k);
    }
}

/// The curve of a side in priority order follows that order: each segment is
/// at a better price than all segments behind it, higher for bids and lower
/// for asks.
pub proof fn lemma_curve_follows_priority(s: Seq<Order>, side: Side)
    requires
        total_qty(s) <= Qty::MAX,
        in_priority_order(s, side),
    ensures
        forall|i: int, j: int|
            0 <= i < j < curve_of(s).len() ==> match side {
                Side::Bid => curve_of(s)[i].price@ > curve_of(s)[j].price@,
                Side::Ask => curve_of(s)[i].price@ < curve_of(s)[j].price@,
            },
{
    lemma_curve_runs(s);
    lemma_ordered_side_is_grouped(s, side);
    lemma_curve_prices_differ(s);
    let c = curve_of(s);
    assert forall|i: int, j: int| 0 <= i < j < c.len() implies match side {
        Side::Bid => c[i].price@ > c[j].price@,
        Side::Ask => c[i].price@ < c[j].price@,
    } by {
        lemma_run_ends_rise(s, i, j);
        lemma_prices_along(s, side, run_ends(s)[i] - 1, run_ends(s)[j] - 1);
        assert(c[i].price@ != c[j].price@);
    }
}

/// A side in priority order is left as it stands.
pub proof fn lemma_ordered_side_stays(s: Seq<Order>, side: Side)
    requires
        in_priority_order(s, side),
    ensures
        by_priority(s, side) == s,
    decreases s.len(),
{
    if s.len() > 0 {
        let front = s.drop_last();
        assert(in_priority_order(front, side)) by {
            assert forall|i: int, j: int| 0 <= i < j < front.len() implies !outranks(
                side,
                front[j],
                front[i],
            ) by {
                assert(!outranks(side, s[j], s[i]));
            }
        }
        lemma_ordered_side_stays(front, side);
        if front.len() > 0 {
            assert(!outranks(side, s[s.len() - 1], s[front.len() - 1]));
            assert(front.last() == s[front.len() - 1]);
        }
        assert(front.push(s.last()) =~= s);
    }
}

/// A longer front part holds no less.
pub proof fn lemma_total_qty_between(s: Seq<Order>, x: int, y: int)
    requires
        0 <= x <= y <= s.len(),
    ensures
        total_qty(s.take(x)) <= total_qty(s.take(y)),
{
    lemma_total_qty_take(s.take(y), x);
    assert(s.take(y).take(x) =~= s.take(x));
}

/// Orders that may trade and that the quantity covers are filled in full.
pub proof fn lemma_filled_reaches(s: Seq<Order>, side: Side, p: Price, q: int, k: int, e: int)
    requires
        0 <= k <= e <= s.len(),
        forall|x: int| k <= x < e ==> eligible(side, #[trigger] s[x], p),
        total_qty(s.take(e)) - total_qty(s.take(k)) <= q,
    ensures
        filled_upto(s, side, p, q, k) >= e,
    decreases e - k,
{
    if k < e {
        lemma_total_qty_take(s, k);
        lemma_total_qty_between(s, k + 1, e);
        assert(eligible(side, s[k], p));
        lemma_filled_reaches(s, side, p, q - s[k].qty, k + 1, e);
    } else {
        lemma_filled_upto(s, side, p, q, k);
    }
}

/// The orders of an ordered side are resting where those of the side are.
pub proof fn lemma_by_priority_resting(s: Seq<Order>, side: Side)
    requires
        all_resting(s),
    ensures
        all_resting(by_priority(s, side)),
        all_positive(by_priority(s, side)),
{
    lemma_by_priority_members(s, side);
    let r = by_priority(s, side);
    assert forall|i: int| 0 <= i < r.len() implies (#[trigger] r[i]).is_resting() by {
        let k = choose|k: int| 0 <= k < s.len() && s[k] == r[i];
        assert(s[k].is_resting());
    }
}

/// A side whose curve reaches the quantity `q` at a price that may trade
/// takes all of `q`: what the orders filled in full leave goes to an order
/// that takes the rest.
pub proof fn lemma_side_takes_all(o: Seq<Order>, side: Side, p: Price, q: int, k: int)
    requires
        total_qty(o) <= Qty::MAX,
        in_priority_order(o, side),
        0 <= k < curve_of(o).len(),
        price_eligible(side, curve_of(o)[k].price, p),
        0 <= q <= curve_of(o)[k].q_max,
    ensures
        total_qty(cleared_orders(o, side, p, q)) + partial_fill(o, side, p, q) == q,
{
    lemma_curve_runs(o);
    let e = run_ends(o)[k];
    assert(curve_of(o)[k].q_max == total_qty(o.take(e)));
    lemma_fill_count(o, side, p, q);
    lemma_cleared_total(o, side, p, q);
    let n = fill_count(o, side, p, q);
    if n < e {
        lemma_prices_along(o, side, n, e - 1);
        assert(eligible(side, o[n], p));
    } else {
        lemma_total_qty_between(o, e, n);
    }
}

/// A side whose curve reaches exactly the quantity `q` with a segment that
/// may trade, while the next segment may not, is filled up to the end of
/// that segment and no further: no order that may trade is left on it.
pub proof fn lemma_side_is_exhausted(o: Seq<Order>, side: Side, p: Price, q: int, k: int)
    requires
        total_qty(o) <= Qty::MAX,
        in_priority_order(o, side),
        0 <= k < curve_of(o).len(),
        price_eligible(side, curve_of(o)[k].price, p),
        q == curve_of(o)[k].q_max,
        k + 1 < curve_of(o).len() ==> !price_eligible(side, curve_of(o)[k + 1].price, p),
    ensures
        fill_count(o, side, p, q) == run_ends(o)[k],
        forall|x: int| fill_count(o, side, p, q) <= x < o.len() ==> !eligible(side, #[trigger] o[x], p),
{
    lemma_curve_runs(o);
    let c = curve_of(o);
    let e = run_ends(o)[k];
    assert(c[k].q_max == total_qty(o.take(e)));
    assert(k + 1 < c.len() ==> o[e].price@ == c[k + 1].price@);
    assert(k + 1 == c.len() ==> e == o.len()) by {
        if k + 1 == c.len() {
            assert(run_ends(o).last() == o.len());
        }
    }
    assert forall|x: int| 0 <= x < e implies eligible(side, #[trigger] o[x], p) by {
        lemma_prices_along(o, side, x, e - 1);
    }
    assert forall|x: int| e <= x < o.len() implies !eligible(side, #[trigger] o[x], p) by {
        lemma_prices_along(o, side, e, x);
    }
    assert(o.take(0) =~= Seq::<Order>::empty());
    lemma_filled_reaches(o, side, p, q, 0, e);
    lemma_fill_count(o, side, p, q);
    let n = fill_count(o, side, p, q);
    if n > e {
        assert(eligible(side, o[e], p));
    }
}

/// Of a side whose orders filled in full stand in front, the orders behind
/// them stay, each one batch older.
pub proof fn lemma_survivors_behind(t: Seq<Order>, n: int)
    requires
        0 <= n <= t.len(),
        forall|x: int| 0 <= x < n ==> (#[trigger] t[x]).cleared,
        forall|x: int| n <= x < t.len() ==> !(#[trigger] t[x]).cleared,
    ensures
        survivors(t) == Seq::new((t.len() - n) as nat, |k: int| aged(t[n + k])),
        total_qty(survivors(t)) == total_qty(t) - total_qty(t.take(n)),
    decreases t.len(),
{
    let r = Seq::new((t.len() - n) as nat, |k: int| aged(t[n + k]));
    if t.len() == 0 {
        assert(survivors(t) =~= r);
        assert(t.take(n) =~= t);
    } else if n == t.len() {
        let front = t.drop_last();
        lemma_survivors_behind(front, n - 1);
        assert(survivors(t) =~= r);
        assert(t.take(n) =~= t);
        assert(front.take(n - 1) =~= front);
    } else {
        let front = t.drop_last();
        lemma_survivors_behind(front, n);
        assert(survivors(t) =~= r);
        assert(front.take(n) =~= t.take(n));
        assert(survivors(t).drop_last() =~= survivors(front));
    }
}

/// What is left of a side of resting orders after the clearing: the orders
/// behind those filled in full, each one batch older, the first of them with
/// what the rest has left of it.
pub proof fn lemma_survivors_of_clearing(o: Seq<Order>, side: Side, p: Price, q: int)
    requires
        0 <= q,
        all_resting(o),
        can_age(o),
    ensures
        ({
            let n = fill_count(o, side, p, q);
            let left = survivors(after_clearing(o, side, p, q));
            &&& 0 <= n <= o.len()
            &&& left.len() == o.len() - n
            &&& forall|k: int|
                0 <= k < left.len() ==> (#[trigger] left[k]).price == o[n + k].price && left[k].seniority
                    == o[n + k].seniority + 1 && !left[k].cleared && left[k].qty <= o[n + k].qty
                    && left[k].qty > 0
            &&& forall|k: int| 1 <= k < left.len() ==> #[trigger] left[k] == aged(o[n + k])
            &&& !has_partial(o, side, p, q) && left.len() > 0 ==> left[0] == aged(o[n])
            &&& total_qty(o) - total_qty(left) == total_qty(cleared_orders(o, side, p, q))
                + partial_fill(o, side, p, q)
        }),
{
    lemma_fill_count(o, side, p, q);
    lemma_cleared_total(o, side, p, q);
    lemma_after_clearing_total(o, side, p, q);
    let n = fill_count(o, side, p, q);
    let t = after_clearing(o, side, p, q);
    assert forall|x: int| n <= x < t.len() implies !(#[trigger] t[x]).cleared by {
        assert(o[x].is_resting());
    }
    lemma_survivors_behind(t, n);
    crate::auction::clearing::lemma_same_quantities(t.take(n), o.take(n));
    let left = survivors(t);
    assert forall|k: int| 0 <= k < left.len() implies (#[trigger] left[k]).price == o[n + k].price
        && left[k].seniority == o[n + k].seniority + 1 && !left[k].cleared && left[k].qty <= o[n
        + k].qty && left[k].qty > 0 by {
        assert(o[n + k].is_resting());
        assert(left[k] == aged(t[n + k]));
    }
}

/// Volume is conserved: on each side, the quantity of the orders filled in
/// full and the quantity that went to the order that took the rest make up
/// the clearing quantity, and the open quantity of the side comes down by
/// exactly that.
pub open spec fn volume_is_conserved(
    bids: Seq<Order>,
    asks: Seq<Order>,
    report: Outcome,
    bids_after: Seq<Order>,
    asks_after: Seq<Order>,
) -> bool {
    report matches Outcome::Trade { price, qty, cleared_bids, cleared_asks } ==> {
        let b = by_priority(bids, Side::Bid);
        let a = by_priority(asks, Side::Ask);
        &&& total_qty(cleared_bids) + partial_fill(b, Side::Bid, price, qty as int) == qty
        &&& total_qty(cleared_asks) + partial_fill(a, Side::Ask, price, qty as int) == qty
        &&& total_qty(bids) - total_qty(bids_after) == qty
        &&& total_qty(asks) - total_qty(asks_after) == qty
    }
}

/// In a book of resting orders, volume is conserved.
pub proof fn lemma_volume_is_conserved(
    bids: Seq<Order>,
    asks: Seq<Order>,
    report: Outcome,
    bids_after: Seq<Order>,
    asks_after: Seq<Order>,
)
    requires
        is_resting_book(bids, asks),
        is_outcome(bids, asks, report, bids_after, asks_after),
    ensures
        volume_is_conserved(bids, asks, report, bids_after, asks_after),
{
    let b = by_priority(bids, Side::Bid);
    let a = by_priority(asks, Side::Ask);
    let d = curve_of(b);
    let s = curve_of(a);
    let at = crossing_of(d, s);
    lemma_by_priority(bids, Side::Bid);
    lemma_by_priority(asks, Side::Ask);
    lemma_by_priority_total(bids, Side::Bid);
    lemma_by_priority_total(asks, Side::Ask);
    lemma_by_priority_resting(bids, Side::Bid);
    lemma_by_priority_resting(asks, Side::Ask);
    lemma_by_priority_fits(bids, Side::Bid);
    lemma_by_priority_fits(asks, Side::Ask);
    match report {
        Outcome::Trade { price, qty, cleared_bids, cleared_asks } => {
            lemma_crossing(d, s);
            lemma_side_takes_all(b, Side::Bid, price, qty as int, at.bid);
            lemma_side_takes_all(a, Side::Ask, price, qty as int, at.ask);
            lemma_survivors_of_clearing(b, Side::Bid, price, qty as int);
            lemma_survivors_of_clearing(a, Side::Ask, price, qty as int);
        },
        Outcome::NoTrade => {},
    }
}

/// Prices are admissible: every bid filled in full was at the clearing price
/// or above, every ask filled in full at the clearing price or below.
pub open spec fn cleared_prices_are_admissible(report: Outcome) -> bool {
    report matches Outcome::Trade { price, qty, cleared_bids, cleared_asks } ==> {
        &&& forall|k: int| 0 <= k < cleared_bids.len() ==> (#[trigger] cleared_bids[k]).price@ >= price@
        &&& forall|k: int| 0 <= k < cleared_asks.len() ==> (#[trigger] cleared_asks[k]).price@ <= price@
    }
}

/// In every book, the prices of the cleared orders are admissible.
pub proof fn lemma_cleared_prices_are_admissible(
    bids: Seq<Order>,
    asks: Seq<Order>,
    report: Outcome,
    bids_after: Seq<Order>,
    asks_after: Seq<Order>,
)
    requires
        is_outcome(bids, asks, report, bids_after, asks_after),
    ensures
        cleared_prices_are_admissible(report),
{
    let b = by_priority(bids, Side::Bid);
    let a = by_priority(asks, Side::Ask);
    match report {
        Outcome::Trade { price, qty, cleared_bids, cleared_asks } => {
            lemma_fill_count(b, Side::Bid, price, qty as int);
            lemma_fill_count(a, Side::Ask, price, qty as int);
            assert forall|k: int| 0 <= k < cleared_bids.len() implies (#[trigger] cleared_bids[k]).price@
                >= price@ by {
                assert(eligible(Side::Bid, b[k], price));
            }
            assert forall|k: int| 0 <= k < cleared_asks.len() implies (#[trigger] cleared_asks[k]).price@
                <= price@ by {
                assert(eligible(Side::Ask, a[k], price));
            }
        },
        Outcome::NoTrade => {},
    }
}

/// A trade exhausts one side: after it, every bid left in the book is below
/// the clearing price, or every ask left in the book is above it.
pub open spec fn one_side_is_exhausted(report: Outcome, bids_after: Seq<Order>, asks_after: Seq<Order>) -> bool {
    report matches Outcome::Trade { price, .. } ==> {
        ||| forall|k: int| 0 <= k < bids_after.len() ==> (#[trigger] bids_after[k]).price@ < price@
        ||| forall|k: int| 0 <= k < asks_after.len() ==> (#[trigger] asks_after[k]).price@ > price@
    }
}

/// In a book of resting orders, a trade exhausts one side.
pub proof fn lemma_one_side_is_exhausted(
    bids: Seq<Order>,
    asks: Seq<Order>,
    report: Outcome,
    bids_after: Seq<Order>,
    asks_after: Seq<Order>,
)
    requires
        is_resting_book(bids, asks),
        is_outcome(bids, asks, report, bids_after, asks_after),
    ensures
        one_side_is_exhausted(report, bids_after, asks_after),
{
    let b = by_priority(bids, Side::Bid);
    let a = by_priority(asks, Side::Ask);
    let d = curve_of(b);
    let s = curve_of(a);
    let at = crossing_of(d, s);
    lemma_by_priority(bids, Side::Bid);
    lemma_by_priority(asks, Side::Ask);
    lemma_by_priority_total(bids, Side::Bid);
    lemma_by_priority_total(asks, Side::Ask);
    lemma_by_priority_resting(bids, Side::Bid);
    lemma_by_priority_resting(asks, Side::Ask);
    lemma_by_priority_fits(bids, Side::Bid);
    lemma_by_priority_fits(asks, Side::Ask);
    match report {
        Outcome::Trade { price, qty, cleared_bids, cleared_asks } => {
            lemma_crossing(d, s);
            lemma_survivors_of_clearing(b, Side::Bid, price, qty as int);
            lemma_survivors_of_clearing(a, Side::Ask, price, qty as int);
            if d[at.bid].q_max < s[at.ask].q_max {
                assert(!meets(d, s, at.bid + 1, at.ask));
                lemma_side_is_exhausted(b, Side::Bid, price, qty as int, at.bid);
                let n = fill_count(b, Side::Bid, price, qty as int);
                assert forall|k: int| 0 <= k < bids_after.len() implies (#[trigger] bids_after[k]).price@
                    < price@ by {
                    assert(!eligible(Side::Bid, b[n + k], price));
                }
            } else {
                assert(!meets(d, s, at.bid, at.ask + 1));
                lemma_side_is_exhausted(a, Side::Ask, price, qty as int, at.ask);
                let n = fill_count(a, Side::Ask, price, qty as int);
                assert forall|k: int| 0 <= k < asks_after.len() implies (#[trigger] asks_after[k]).price@
                    > price@ by {
                    assert(!eligible(Side::Ask, a[n + k], price));
                }
            }
        },
        Outcome::NoTrade => {},
    }
}

/// Priority is respected: while an ask at the clearing price or below is
/// left in the book, no bid above the clearing price is, and while a bid at
/// the clearing price or above is left, no ask below it is. On each side at
/// most the first order left has lost part of its quantity; all others are
/// as they were, one batch older.
pub open spec fn priority_is_respected(
    bids: Seq<Order>,
    asks: Seq<Order>,
    report: Outcome,
    bids_after: Seq<Order>,
    asks_after: Seq<Order>,
) -> bool {
    report matches Outcome::Trade { price, qty, cleared_bids, cleared_asks } ==> {
        let b = by_priority(bids, Side::Bid);
        let a = by_priority(asks, Side::Ask);
        &&& (exists|k: int| 0 <= k < asks_after.len() && (#[trigger] asks_after[k]).price@ <= price@)
            ==> forall|k: int| 0 <= k < bids_after.len() ==> !((#[trigger] bids_after[k]).price@ > price@)
        &&& (exists|k: int| 0 <= k < bids_after.len() && (#[trigger] bids_after[k]).price@ >= price@)
            ==> forall|k: int| 0 <= k < asks_after.len() ==> !((#[trigger] asks_after[k]).price@ < price@)
        &&& bids_after.len() == b.len() - cleared_bids.len()
        &&& asks_after.len() == a.len() - cleared_asks.len()
        &&& forall|k: int|
            1 <= k < bids_after.len() ==> #[trigger] bids_after[k] == aged(b[cleared_bids.len() + k])
        &&& forall|k: int|
            1 <= k < asks_after.len() ==> #[trigger] asks_after[k] == aged(a[cleared_asks.len() + k])
    }
}

/// In a book of resting orders, priority is respected.
pub proof fn lemma_priority_is_respected(
    bids: Seq<Order>,
    asks: Seq<Order>,
    report: Outcome,
    bids_after: Seq<Order>,
    asks_after: Seq<Order>,
)
    requires
        is_resting_book(bids, asks),
        is_outcome(bids, asks, report, bids_after, asks_after),
    ensures
        priority_is_respected(bids, asks, report, bids_after, asks_after),
{
    lemma_one_side_is_exhausted(bids, asks, report, bids_after, asks_after);
    let b = by_priority(bids, Side::Bid);
    let a = by_priority(asks, Side::Ask);
    lemma_by_priority_resting(bids, Side::Bid);
    lemma_by_priority_resting(asks, Side::Ask);
    lemma_by_priority_fits(bids, Side::Bid);
    lemma_by_priority_fits(asks, Side::Ask);
    match report {
        Outcome::Trade { price, qty, cleared_bids, cleared_asks } => {
            lemma_survivors_of_clearing(b, Side::Bid, price, qty as int);
            lemma_survivors_of_clearing(a, Side::Ask, price, qty as int);
        },
        Outcome::NoTrade => {},
    }
}

/// The clearing price is a midpoint: it lies halfway between the price of a
/// bid and the price of an ask of the book, the ask not above the bid, and so
/// between the best ask and the best bid of the book, which both trade.
pub open spec fn price_is_a_midpoint(bids: Seq<Order>, asks: Seq<Order>, report: Outcome) -> bool {
    report matches Outcome::Trade { price, qty, .. } ==> {
        let b = by_priority(bids, Side::Bid);
        let a = by_priority(asks, Side::Ask);
        &&& exists|i: int, j: int|
            {
                &&& 0 <= i < bids.len()
                &&& 0 <= j < asks.len()
                &&& 2 * price@ == (#[trigger] bids[i]).price@ + (#[trigger] asks[j]).price@
                &&& asks[j].price@ <= price@ <= bids[i].price@
            }
        &&& b.len() > 0
        &&& a.len() > 0
        &&& a[0].price@ <= price@ <= b[0].price@
        &&& forall|k: int| 0 <= k < bids.len() ==> (#[trigger] bids[k]).price@ <= b[0].price@
        &&& forall|k: int| 0 <= k < asks.len() ==> (#[trigger] asks[k]).price@ >= a[0].price@
    }
}

/// In a book of resting orders, the clearing price is a midpoint.
pub proof fn lemma_price_is_a_midpoint(
    bids: Seq<Order>,
    asks: Seq<Order>,
    report: Outcome,
    bids_after: Seq<Order>,
    asks_after: Seq<Order>,
)
    requires
        is_resting_book(bids, asks),
        is_outcome(bids, asks, report, bids_after, asks_after),
    ensures
        price_is_a_midpoint(bids, asks, report),
{
    broadcast use vstd::seq_lib::group_to_multiset_ensures;

    let b = by_priority(bids, Side::Bid);
    let a = by_priority(asks, Side::Ask);
    let d = curve_of(b);
    let s = curve_of(a);
    let at = crossing_of(d, s);
    lemma_by_priority(bids, Side::Bid);
    lemma_by_priority(asks, Side::Ask);
    lemma_by_priority_total(bids, Side::Bid);
    lemma_by_priority_total(asks, Side::Ask);
    lemma_by_priority_members(bids, Side::Bid);
    lemma_by_priority_members(asks, Side::Ask);
    lemma_curve_runs(b);
    lemma_curve_runs(a);
    match report {
        Outcome::Trade { price, qty, cleared_bids, cleared_asks } => {
            lemma_crossing(d, s);
            let x = run_ends(b)[at.bid] - 1;
            let y = run_ends(a)[at.ask] - 1;
            assert(b[x].price@ == d[at.bid].price@);
            assert(a[y].price@ == s[at.ask].price@);
            let i = choose|i: int| 0 <= i < bids.len() && bids[i] == b[x];
            let j = choose|j: int| 0 <= j < asks.len() && asks[j] == a[y];
            assert(2 * price@ == bids[i].price@ + asks[j].price@ && asks[j].price@ <= price@
                <= bids[i].price@);
            lemma_prices_along(b, Side::Bid, 0, x);
            lemma_prices_along(a, Side::Ask, 0, y);
            assert forall|k: int| 0 <= k < bids.len() implies (#[trigger] bids[k]).price@ <= b[0].price@ by {
                assert(bids.contains(bids[k]));
                assert(b.to_multiset().count(bids[k]) > 0);
                assert(b.contains(bids[k]));
                let m = choose|m: int| 0 <= m < b.len() && b[m] == bids[k];
                lemma_prices_along(b, Side::Bid, 0, m);
            }
            assert forall|k: int| 0 <= k < asks.len() implies (#[trigger] asks[k]).price@ >= a[0].price@ by {
                assert(asks.contains(asks[k]));
                assert(a.to_multiset().count(asks[k]) > 0);
                assert(a.contains(asks[k]));
                let m = choose|m: int| 0 <= m < a.len() && a[m] == asks[k];
                lemma_prices_along(a, Side::Ask, 0, m);
            }
        },
        Outcome::NoTrade => {},
    }
}

/// Every order of `s` has the seniority `n`.
pub open spec fn all_of_seniority(s: Seq<Order>, n: int) -> bool {
    forall|i: int| 0 <= i < s.len() ==> (#[trigger] s[i]).seniority == n
}

/// One side has grown one batch older: every order of `after` is an order of
/// `before` with its price, one more batch of seniority and no more than its
/// quantity, and `after` holds resting orders of no more quantity in all.
pub open spec fn side_aged_by_one(before: Seq<Order>, after: Seq<Order>) -> bool {
    &&& forall|k: int|
        0 <= k < after.len() ==> exists|i: int|
            0 <= i < before.len() && (#[trigger] after[k]).seniority == (#[trigger] before[i]).seniority
                + 1 && after[k].price == before[i].price && after[k].qty <= before[i].qty
    &&& all_resting(after)
    &&& total_qty(after) <= total_qty(before)
}

/// A batch makes a book of resting orders one batch older, on both sides.
pub proof fn lemma_survivors_age_by_one(
    bids: Seq<Order>,
    asks: Seq<Order>,
    report: Outcome,
    bids_after: Seq<Order>,
    asks_after: Seq<Order>,
)
    requires
        is_resting_book(bids, asks),
        is_outcome(bids, asks, report, bids_after, asks_after),
    ensures
        side_aged_by_one(bids, bids_after),
        side_aged_by_one(asks, asks_after),
{
    lemma_side_ages_by_one(bids, Side::Bid, report, bids_after);
    lemma_side_ages_by_one(asks, Side::Ask, report, asks_after);
}

/// What a batch leaves of one side, whatever it cleared at.
pub open spec fn is_side_after(s: Seq<Order>, side: Side, report: Outcome, after: Seq<Order>) -> bool {
    match report {
        Outcome::NoTrade => after == survivors(by_priority(s, side)),
        Outcome::Trade { price, qty, .. } => after == survivors(
            after_clearing(by_priority(s, side), side, price, qty as int),
        ),
    }
}

/// One side after a batch holds orders that were there, one batch older.
proof fn lemma_side_ages_by_one(s: Seq<Order>, side: Side, report: Outcome, after: Seq<Order>)
    requires
        all_resting(s),
        can_age(s),
        total_qty(s) <= Qty::MAX,
        is_side_after(s, side, report, after),
    ensures
        side_aged_by_one(s, after),
{
    let o = by_priority(s, side);
    lemma_by_priority(s, side);
    lemma_by_priority_total(s, side);
    lemma_by_priority_members(s, side);
    lemma_by_priority_resting(s, side);
    assert(can_age(o)) by {
        assert forall|i: int| 0 <= i < o.len() implies (#[trigger] o[i]).seniority < u64::MAX by {
            let k = choose|k: int| 0 <= k < s.len() && s[k] == o[i];
            assert(s[k].seniority < u64::MAX);
        }
    }
    match report {
        Outcome::NoTrade => {
            lemma_survivors_behind(o, 0);
            assert(o.take(0) =~= Seq::<Order>::empty());
            assert forall|k: int| 0 <= k < after.len() implies exists|i: int|
                0 <= i < s.len() && (#[trigger] after[k]).seniority == (#[trigger] s[i]).seniority + 1
                    && after[k].price == s[i].price && after[k].qty <= s[i].qty by {
                assert(after[k] == aged(o[k]));
                let i = choose|i: int| 0 <= i < s.len() && s[i] == o[k];
                assert(after[k].seniority == s[i].seniority + 1);
            }
            assert forall|k: int| 0 <= k < after.len() implies (#[trigger] after[k]).is_resting() by {
                assert(after[k] == aged(o[k]));
                assert(o[k].is_resting());
            }
        },
        Outcome::Trade { price, qty, .. } => {
            lemma_survivors_of_clearing(o, side, price, qty as int);
            lemma_fill_count(o, side, price, qty as int);
            crate::auction::curve::lemma_total_qty_nonnegative(cleared_orders(o, side, price, qty as int));
            let n = fill_count(o, side, price, qty as int);
            assert forall|k: int| 0 <= k < after.len() implies exists|i: int|
                0 <= i < s.len() && (#[trigger] after[k]).seniority == (#[trigger] s[i]).seniority + 1
                    && after[k].price == s[i].price && after[k].qty <= s[i].qty by {
                let i = choose|i: int| 0 <= i < s.len() && s[i] == o[n + k];
                assert(after[k].seniority == s[i].seniority + 1);
            }
            assert forall|k: int| 0 <= k < after.len() implies (#[trigger] after[k]).is_resting() by {
                assert(o[n + k].is_resting());
            }
        },
    }
}

/// Seniority counts batches: in a book whose orders all came in together,
/// and to which nothing is added, every order that is still there after `t`
/// batches has `t` batches of seniority more than it came with.
pub proof fn lemma_seniority_counts_batches(
    books: Seq<(Seq<Order>, Seq<Order>)>,
    reports: Seq<Outcome>,
    n: int,
    t: int,
)
    requires
        reports.len() + 1 == books.len(),
        forall|i: int|
            0 <= i < reports.len() ==> is_outcome(
                books[i].0,
                books[i].1,
                #[trigger] reports[i],
                books[i + 1].0,
                books[i + 1].1,
            ),
        is_resting_book(books[0].0, books[0].1),
        all_of_seniority(books[0].0, n),
        all_of_seniority(books[0].1, n),
        n + books.len() <= u64::MAX,
        0 <= t < books.len(),
    ensures
        all_of_seniority(books[t].0, n + t),
        all_of_seniority(books[t].1, n + t),
        is_resting_book(books[t].0, books[t].1),
    decreases t,
{
    if t > 0 {
        lemma_seniority_counts_batches(books, reports, n, t - 1);
        let bids = books[t - 1].0;
        let asks = books[t - 1].1;
        let bids_after = books[t].0;
        let asks_after = books[t].1;
        assert(is_outcome(bids, asks, reports[t - 1], bids_after, asks_after));
        lemma_survivors_age_by_one(bids, asks, reports[t - 1], bids_after, asks_after);
        assert forall|k: int| 0 <= k < bids_after.len() implies (#[trigger] bids_after[k]).seniority == n
            + t by {
            let i = choose|i: int|
                0 <= i < bids.len() && (#[trigger] bids_after[k]).seniority == (#[trigger] bids[i]).seniority
                    + 1 && bids_after[k].price == bids[i].price && bids_after[k].qty <= bids[i].qty;
            assert(bids[i].seniority == n + t - 1);
        }
        assert forall|k: int| 0 <= k < asks_after.len() implies (#[trigger] asks_after[k]).seniority == n
            + t by {
            let i = choose|i: int|
                0 <= i < asks.len() && (#[trigger] asks_after[k]).seniority == (#[trigger] asks[i]).seniority
                    + 1 && asks_after[k].price == asks[i].price && asks_after[k].qty <= asks[i].qty;
            assert(asks[i].seniority == n + t - 1);
        }
        assert forall|k: int| 0 <= k < bids_after.len() implies (#[trigger] bids_after[k]).price.is_quote()
            && bids_after[k].seniority < u64::MAX by {
            assert(bids_after[k].is_resting());
        }
        assert forall|k: int| 0 <= k < asks_after.len() implies (#[trigger] asks_after[k]).price.is_quote()
            && asks_after[k].seniority < u64::MAX by {
            assert(asks_after[k].is_resting());
        }
    }
}

/// A batch is determined by the book: two outcomes of one book are one and
/// the same, in the report with its cleared orders and their order, and in
/// the book that is left.
pub proof fn lemma_outcome_is_unique(
    bids: Seq<Order>,
    asks: Seq<Order>,
    report: Outcome,
    bids_after: Seq<Order>,
    asks_after: Seq<Order>,
    other_report: Outcome,
    other_bids_after: Seq<Order>,
    other_asks_after: Seq<Order>,
)
    requires
        is_outcome(bids, asks, report, bids_after, asks_after),
        is_outcome(bids, asks, other_report, other_bids_after, other_asks_after),
    ensures
        report == other_report,
        bids_after == other_bids_after,
        asks_after == other_asks_after,
{
    match (report, other_report) {
        (
            Outcome::Trade { price, qty, cleared_bids, cleared_asks },
            Outcome::Trade { price: p2, qty: q2, cleared_bids: cb2, cleared_asks: ca2 },
        ) => {
            lemma_canonical_is_unique(price, p2);
        },
        _ => {},
    }
}

} // verus!
