//! Where the demand curve and the supply curve cross.
//!
//! Both curves are walked from their best price on, one segment at a time,
//! along the quantity axis. As long as the segment of the supply curve in
//! reach is not above the segment of the demand curve in reach, the two can
//! trade up to the end of the shorter one.

use crate::auction::order::{Qty, Segment};
use crate::price::Price;
use vstd::prelude::*;

verus! {

/// How far a walk over the two curves has come: the pair of segments it took
/// last, and the quantity up to which they trade.
pub struct Frontier {
    /// The index of the demand segment.
    pub bid: int,
    /// The index of the supply segment.
    pub ask: int,
    pub qty: int,
}

/// The smaller of two quantities.
pub open spec fn lesser(a: int, b: int) -> int {
    if a < b {
        a
    } else {
        b
    }
}

/// The segments `d[i]` and `s[j]` can trade: the supply is not above the
/// demand.
pub open spec fn meets(d: Seq<Segment>, s: Seq<Segment>, i: int, j: int) -> bool {
    &&& 0 <= i < d.len()
    &&& 0 <= j < s.len()
    &&& s[j].price@ <= d[i].price@
}

/// The walk from the pair `(i, j)` on, having come as far as `at`.
pub open spec fn sweep(d: Seq<Segment>, s: Seq<Segment>, i: int, j: int, at: Frontier) -> Frontier
    decreases d.len() - i + s.len() - j,
{
    if meets(d, s, i, j) {
        let reached = Frontier { bid: i, ask: j, qty: lesser(d[i].q_max as int, s[j].q_max as int) };
        if d[i].q_max < s[j].q_max {
            sweep(d, s, i + 1, j, reached)
        } else {
            sweep(d, s, i, j + 1, reached)
        }
    } else {
        at
    }
}

/// Where the walk over `d` and `s` ends.
pub open spec fn crossing_of(d: Seq<Segment>, s: Seq<Segment>) -> Frontier {
    sweep(d, s, 0, 0, Frontier { bid: 0, ask: 0, qty: 0 })
}

/// The two curves have no point in common: one of them is empty, or the best
/// bid is below the best ask.
pub open spec fn apart(d: Seq<Segment>, s: Seq<Segment>) -> bool {
    d.len() == 0 || s.len() == 0 || d[0].price@ < s[0].price@
}

/// The pair that the walk would try after `(i, j)`: it moves on along the
/// curve whose segment ends first, and along the supply when both end
/// together.
pub open spec fn pair_after(d: Seq<Segment>, s: Seq<Segment>, i: int, j: int) -> (int, int) {
    if d[i].q_max < s[j].q_max {
        (i + 1, j)
    } else {
        (i, j + 1)
    }
}

/// `at` is a pair that can trade, with the quantity up to which it does.
pub open spec fn is_reached(d: Seq<Segment>, s: Seq<Segment>, at: Frontier) -> bool {
    &&& meets(d, s, at.bid, at.ask)
    &&& at.qty == lesser(d[at.bid].q_max as int, s[at.ask].q_max as int)
}

/// `at` can trade and the pair after it cannot: there the curves cross.
pub open spec fn is_crossing(d: Seq<Segment>, s: Seq<Segment>, at: Frontier) -> bool {
    &&& is_reached(d, s, at)
    &&& !meets(d, s, pair_after(d, s, at.bid, at.ask).0, pair_after(d, s, at.bid, at.ask).1)
}

/// A walk that has reached a pair ends at a crossing.
pub proof fn lemma_sweep_ends_at_crossing(d: Seq<Segment>, s: Seq<Segment>, i: int, j: int, at: Frontier)
    requires
        is_reached(d, s, at),
        (i, j) == pair_after(d, s, at.bid, at.ask),
    ensures
        is_crossing(d, s, sweep(d, s, i, j, at)),
    decreases d.len() - i + s.len() - j,
{
    if meets(d, s, i, j) {
        let reached = Frontier { bid: i, ask: j, qty: lesser(d[i].q_max as int, s[j].q_max as int) };
        let (ni, nj) = pair_after(d, s, i, j);
        lemma_sweep_ends_at_crossing(d, s, ni, nj, reached);
    }
}

/// Curves that are not apart cross, and the walk finds where.
pub proof fn lemma_crossing(d: Seq<Segment>, s: Seq<Segment>)
    requires
        !apart(d, s),
    ensures
        is_crossing(d, s, crossing_of(d, s)),
{
    let reached = Frontier { bid: 0, ask: 0, qty: lesser(d[0].q_max as int, s[0].q_max as int) };
    let (ni, nj) = pair_after(d, s, 0, 0);
    lemma_sweep_ends_at_crossing(d, s, ni, nj, reached);
}

/// Every price along the curve is one that the book accepts.
pub open spec fn all_quotes(c: Seq<Segment>) -> bool {
    forall|i: int| 0 <= i < c.len() ==> (#[trigger] c[i]).price.is_quote()
}

/// Finds the clearing price and the clearing quantity of a batch from its
/// demand and supply curves, or `None` where the curves are apart. The price
/// is the midpoint of the prices of the last pair of segments that can
/// trade, the quantity is the quantity up to which that pair trades.
pub fn intersect_demand_supply(demand: &[Segment], supply: &[Segment]) -> (r: Option<(Price, Qty)>)
    requires
        all_quotes(demand@),
        all_quotes(supply@),
    ensures
        r is None <==> apart(demand@, supply@),
        r matches Some((p_star, q_star)) ==> {
            let at = crossing_of(demand@, supply@);
            &&& is_crossing(demand@, supply@, at)
            &&& q_star == at.qty
            &&& 2 * p_star@ == demand@[at.bid].price@ + supply@[at.ask].price@
            &&& supply@[at.ask].price@ <= p_star@ <= demand@[at.bid].price@
            &&& p_star.is_canonical()
        },
{
    let size_demand: usize = demand.len();
    let size_supply: usize = supply.len();
    if size_demand == 0 || size_supply == 0 {
        return None;
    }
    if demand[0].price.is_below(&supply[0].price) {
        return None;
    }
    let mut idx_demand: usize = 0;
    let mut idx_supply: usize = 0;
    let mut idx_next_demand: usize = 0;
    let mut idx_next_supply: usize = 0;
    let mut q_star: Qty = 0;
    while idx_next_demand < size_demand && idx_next_supply < size_supply && !supply[idx_next_supply].price.is_above(
        &demand[idx_next_demand].price,
    )
        invariant
            size_demand == demand@.len(),
            size_supply == supply@.len(),
            idx_next_demand <= size_demand,
            idx_next_supply <= size_supply,
            meets(demand@, supply@, idx_demand as int, idx_supply as int),
            idx_next_demand == 0 && idx_next_supply == 0 || q_star == lesser(
                demand@[idx_demand as int].q_max as int,
                supply@[idx_supply as int].q_max as int,
            ),
            crossing_of(demand@, supply@) == sweep(
                demand@,
                supply@,
                idx_next_demand as int,
                idx_next_supply as int,
                Frontier { bid: idx_demand as int, ask: idx_supply as int, qty: q_star as int },
            ),
        decreases size_demand - idx_next_demand + size_supply - idx_next_supply,
    {
        let seg_demand = demand[idx_next_demand];
        let seg_supply = supply[idx_next_supply];
        idx_demand = idx_next_demand;
        idx_supply = idx_next_supply;
        if seg_demand.q_max < seg_supply.q_max {
            q_star = seg_demand.q_max;
            idx_next_demand = idx_next_demand + 1;
        } else {
            q_star = seg_supply.q_max;
            idx_next_supply = idx_next_supply + 1;
        }
    }
    proof {
        lemma_crossing(demand@, supply@);
    }
    let p_star = Price::midpoint(&demand[idx_demand].price, &supply[idx_supply].price);
    Some((p_star, q_star))
}

} // verus!
