//! The curve of one side of the book: for each price, the quantity on offer
//! at that price or at any price that is matched before it.

use crate::auction::order::{total_qty, Order, Qty, Segment};
use vstd::prelude::*;

verus! {

/// The curve of the orders `s`, taken in the order in which they stand. Each
/// run of neighbouring orders at one price gives one segment; it carries the
/// price as the first order of the run wrote it and the quantity of all
/// orders up to the end of the run.
pub open spec fn curve_of(s: Seq<Order>) -> Seq<Segment>
    decreases s.len(),
{
    if s.len() == 0 {
        Seq::empty()
    } else {
        let c = curve_of(s.drop_last());
        let top = total_qty(s) as Qty;
        if c.len() > 0 && c.last().price@ == s.last().price@ {
            c.drop_last().push(Segment { price: c.last().price, q_max: top })
        } else {
            c.push(Segment { price: s.last().price, q_max: top })
        }
    }
}

/// For each segment of `curve_of(s)`, the number of orders of `s` up to the
/// end of its run.
pub open spec fn run_ends(s: Seq<Order>) -> Seq<int>
    decreases s.len(),
{
    if s.len() == 0 {
        Seq::empty()
    } else {
        let c = curve_of(s.drop_last());
        let e = run_ends(s.drop_last());
        if c.len() > 0 && c.last().price@ == s.last().price@ {
            e.drop_last().push(s.len() as int)
        } else {
            e.push(s.len() as int)
        }
    }
}

/// The quantity that each segment adds to the one before it, summed.
pub open spec fn sum_of_steps(c: Seq<Segment>) -> int
    decreases c.len(),
{
    if c.len() == 0 {
        0
    } else if c.len() == 1 {
        c[0].q_max as int
    } else {
        sum_of_steps(c.drop_last()) + (c.last().q_max - c[c.len() - 2].q_max)
    }
}

/// Every order has something to offer.
pub open spec fn all_positive(s: Seq<Order>) -> bool {
    forall|i: int| 0 <= i < s.len() ==> (#[trigger] s[i]).qty > 0
}

/// Orders at one price stand next to each other.
pub open spec fn prices_grouped(s: Seq<Order>) -> bool {
    forall|i: int, j: int, k: int|
        0 <= i < j < k < s.len() && s[i].price@ == s[k].price@ ==> s[j].price@ == s[i].price@
}

/// The quantity grows from each segment to the next.
pub open spec fn quantities_rise(c: Seq<Segment>) -> bool {
    forall|i: int, j: int| 0 <= i < j < c.len() ==> c[i].q_max < c[j].q_max
}

/// No two segments are at one price.
pub open spec fn prices_differ(c: Seq<Segment>) -> bool {
    forall|i: int, j: int| 0 <= i < j < c.len() ==> c[i].price@ != c[j].price@
}

/// The quantity of a front part of `s` is part of the quantity of `s`.
pub proof fn lemma_total_qty_take(s: Seq<Order>, k: int)
    requires
        0 <= k <= s.len(),
    ensures
        0 <= total_qty(s.take(k)) <= total_qty(s),
        k < s.len() ==> total_qty(s.take(k + 1)) == total_qty(s.take(k)) + s[k].qty,
    decreases s.len() - k,
{
    if k < s.len() {
        lemma_total_qty_take(s, k + 1);
        assert(s.take(k + 1).drop_last() =~= s.take(k));
        lemma_total_qty_nonnegative(s.take(k));
    } else {
        assert(s.take(k) =~= s);
        lemma_total_qty_nonnegative(s);
    }
}

/// A quantity is never negative.
pub proof fn lemma_total_qty_nonnegative(s: Seq<Order>)
    ensures
        total_qty(s) >= 0,
    decreases s.len(),
{
    if s.len() > 0 {
        lemma_total_qty_nonnegative(s.drop_last());
    }
}

/// How the curve of `s` lies along `s`: segment `k` ends with the order in
/// front of `run_ends(s)[k]`, carries the quantity of all orders up to there
/// and the price of the orders of its run, and the next segment begins with
/// the next order.
pub proof fn lemma_curve_runs(s: Seq<Order>)
    requires
        total_qty(s) <= Qty::MAX,
    ensures
        run_ends(s).len() == curve_of(s).len(),
        curve_of(s).len() <= s.len(),
        s.len() > 0 ==> curve_of(s).len() > 0 && run_ends(s).last() == s.len(),
        forall|k: int|
            #![trigger run_ends(s)[k]]
            #![trigger curve_of(s)[k]]
            0 <= k < curve_of(s).len() ==> {
                let e = run_ends(s)[k];
                &&& 1 <= e <= s.len()
                &&& curve_of(s)[k].q_max == total_qty(s.take(e))
                &&& curve_of(s)[k].price@ == s[e - 1].price@
                &&& k + 1 < curve_of(s).len() ==> e < run_ends(s)[k + 1] && s[e].price@ == curve_of(
                    s,
                )[k + 1].price@ && s[e].price == curve_of(s)[k + 1].price
                &&& k == 0 ==> s[0].price == curve_of(s)[0].price
            },
    decreases s.len(),
{
    if s.len() > 0 {
        let front = s.drop_last();
        let o = s.last();
        let c0 = curve_of(front);
        let e0 = run_ends(front);
        let c = curve_of(s);
        let e = run_ends(s);
        lemma_total_qty_nonnegative(front);
        lemma_curve_runs(front);
        assert(s.take(s.len() as int) =~= s);
        let merged = c0.len() > 0 && c0.last().price@ == o.price@;
        assert forall|k: int|
            #![trigger run_ends(s)[k]]
            #![trigger curve_of(s)[k]]
            0 <= k < c.len() implies {
            let x = e[k];
            &&& 1 <= x <= s.len()
            &&& c[k].q_max == total_qty(s.take(x))
            &&& c[k].price@ == s[x - 1].price@
            &&& k + 1 < c.len() ==> x < e[k + 1] && s[x].price@ == c[k + 1].price@ && s[x].price
                == c[k + 1].price
            &&& k == 0 ==> s[0].price == c[0].price
        } by {
            if k < c.len() - 1 {
                let x = e0[k];
                assert(e[k] == x);
                assert(c[k] == c0[k]);
                assert(s.take(x) =~= front.take(x));
                assert(s[x - 1] == front[x - 1]);
                if k + 1 < c0.len() {
                    assert(s[x] == front[x]);
                    assert(c0[k + 1].price == c[k + 1].price);
                    assert(e0[k + 1] <= e[k + 1]);
                }
                if k == 0 {
                    assert(s[0] == front[0]);
                }
            } else {
                if k == 0 && merged {
                    assert(s[0] == front[0]);
                }
            }
        }
    }
}

/// The last segment carries the whole quantity, and so do the steps of the
/// curve together.
pub proof fn lemma_curve_total(s: Seq<Order>)
    requires
        total_qty(s) <= Qty::MAX,
    ensures
        s.len() > 0 ==> curve_of(s).len() > 0 && curve_of(s).last().q_max == total_qty(s),
        sum_of_steps(curve_of(s)) == total_qty(s),
{
    lemma_curve_runs(s);
    if s.len() > 0 {
        assert(s.take(s.len() as int) =~= s);
    }
    lemma_steps_telescope(curve_of(s));
}

/// The steps of a curve sum to the quantity of its last segment.
pub proof fn lemma_steps_telescope(c: Seq<Segment>)
    ensures
        sum_of_steps(c) == if c.len() == 0 {
            0
        } else {
            c.last().q_max as int
        },
    decreases c.len(),
{
    if c.len() > 1 {
        lemma_steps_telescope(c.drop_last());
    }
}

/// Where every order has something to offer, the quantity grows along the
/// curve.
pub proof fn lemma_curve_rises(s: Seq<Order>)
    requires
        total_qty(s) <= Qty::MAX,
        all_positive(s),
    ensures
        quantities_rise(curve_of(s)),
{
    lemma_curve_runs(s);
    let c = curve_of(s);
    let e = run_ends(s);
    assert forall|i: int, j: int| 0 <= i < j < c.len() implies c[i].q_max < c[j].q_max by {
        lemma_run_ends_rise(s, i, j);
        lemma_total_qty_grows(s, e[i], e[j]);
    }
}

/// The runs of a curve end one after the other.
pub proof fn lemma_run_ends_rise(s: Seq<Order>, i: int, j: int)
    requires
        total_qty(s) <= Qty::MAX,
        0 <= i < j < curve_of(s).len(),
    ensures
        run_ends(s)[i] < run_ends(s)[j],
    decreases j - i,
{
    lemma_curve_runs(s);
    assert(run_ends(s)[j - 1] < run_ends(s)[j]) by {
        let k = j - 1;
        assert(k + 1 < curve_of(s).len());
        assert(run_ends(s)[k] < run_ends(s)[k + 1]);
    }
    if i < j - 1 {
        lemma_run_ends_rise(s, i, j - 1);
    }
}

/// A longer front part of orders that all offer something holds more.
pub proof fn lemma_total_qty_grows(s: Seq<Order>, a: int, b: int)
    requires
        0 <= a < b <= s.len(),
        all_positive(s),
    ensures
        total_qty(s.take(a)) < total_qty(s.take(b)),
    decreases b - a,
{
    lemma_total_qty_take(s, b - 1);
    assert(s[b - 1].qty > 0);
    if a < b - 1 {
        lemma_total_qty_grows(s, a, b - 1);
    }
}

/// Where orders at one price stand together, each price has one segment.
pub proof fn lemma_curve_prices_differ(s: Seq<Order>)
    requires
        total_qty(s) <= Qty::MAX,
        prices_grouped(s),
    ensures
        prices_differ(curve_of(s)),
{
    lemma_curve_runs(s);
    let c = curve_of(s);
    let e = run_ends(s);
    assert forall|i: int, j: int| 0 <= i < j < c.len() implies c[i].price@ != c[j].price@ by {
        // the run of `i` ends at an order whose neighbour is at another price
        lemma_neighbour_prices_differ(s, i);
        if i + 1 < j {
            lemma_run_ends_rise(s, i + 1, j);
        }
        let a = e[i] - 1;
        let b = e[i];
        let d = e[j] - 1;
        assert(s[a].price@ == c[i].price@);
        assert(s[d].price@ == c[j].price@);
        if s[a].price@ == s[d].price@ {
            assert(a < b <= d);
            if b < d {
                assert(s[b].price@ == s[a].price@);
            }
        }
    }
}

/// Neighbouring segments are at different prices.
pub proof fn lemma_neighbour_prices_differ(s: Seq<Order>, k: int)
    requires
        total_qty(s) <= Qty::MAX,
        0 <= k,
        k + 1 < curve_of(s).len(),
    ensures
        curve_of(s)[k].price@ != curve_of(s)[k + 1].price@,
    decreases s.len(),
{
    let front = s.drop_last();
    let c0 = curve_of(front);
    lemma_total_qty_nonnegative(front);
    lemma_curve_runs(front);
    if k + 1 < c0.len() {
        lemma_neighbour_prices_differ(front, k);
    }
}

/// Builds the curve of one side from its orders, which are taken in the order
/// in which they stand.
pub fn orders_to_curve_segments(orders: &[Order]) -> (segments: Vec<Segment>)
    requires
        total_qty(orders@) <= Qty::MAX,
    ensures
        segments@ == curve_of(orders@),
        sum_of_steps(segments@) == total_qty(orders@),
        all_positive(orders@) ==> quantities_rise(segments@),
        prices_grouped(orders@) ==> prices_differ(segments@),
{
    let mut segments: Vec<Segment> = Vec::new();
    let mut max_q: Qty = 0;
    let mut i: usize = 0;
    while i < orders.len()
        invariant
            i <= orders.len(),
            total_qty(orders@) <= Qty::MAX,
            max_q == total_qty(orders@.take(i as int)),
            segments@ == curve_of(orders@.take(i as int)),
        decreases orders.len() - i,
    {
        let order = orders[i];
        proof {
            lemma_total_qty_take(orders@, i as int);
            lemma_total_qty_take(orders@, i + 1);
            assert(orders@.take(i + 1).drop_last() =~= orders@.take(i as int));
        }
        max_q = max_q + order.qty;
        let n = segments.len();
        if n > 0 && segments[n - 1].price.is_level(&order.price) {
            let price = segments[n - 1].price;
            segments[n - 1] = Segment { price, q_max: max_q };
            assert(segments@ =~= curve_of(orders@.take(i + 1)));
        } else {
            segments.push(Segment { price: order.price, q_max: max_q });
        }
        i = i + 1;
    }
    proof {
        assert(orders@.take(i as int) =~= orders@);
        lemma_curve_total(orders@);
        if all_positive(orders@) {
            lemma_curve_rises(orders@);
        }
        if prices_grouped(orders@) {
            lemma_curve_prices_differ(orders@);
        }
    }
    segments
}

} // verus!
