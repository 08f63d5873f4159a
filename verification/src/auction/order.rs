//! Orders, the two sides of the book, and the points of a curve.

use crate::price::Price;
use vstd::prelude::*;

verus! {

/// A number of units of the instrument.
pub type Qty = u32;

/// The side of the book an order rests on.
#[derive(Clone, Copy, Debug, PartialEq, Eq)]
pub enum Side {
    /// Buy orders: the higher price is matched first.
    Bid,
    /// Sell orders: the lower price is matched first.
    Ask,
}

/// A limit order.
#[derive(Clone, Copy, Debug, PartialEq)]
pub struct Order {
    /// The quantity still open.
    pub qty: Qty,
    /// The limit price.
    pub price: Price,
    /// The number of batches the order has been through.
    pub seniority: u64,
    /// Set within a batch on an order that the batch has filled in full.
    pub cleared: bool,
}

/// One step of a curve: the total quantity on offer at this price or any
/// price that is matched before it.
#[derive(Clone, Copy, Debug, PartialEq)]
pub struct Segment {
    pub price: Price,
    pub q_max: Qty,
}

impl Order {
    /// An order as it waits in the book between batches.
    pub open spec fn is_resting(&self) -> bool {
        &&& self.qty > 0
        &&& !self.cleared
        &&& self.price.is_quote()
    }

    /// A new order enters with no seniority.
    pub fn new(price: Price, qty: Qty) -> (o: Order)
        ensures
            o == (Order { qty, price, seniority: 0, cleared: false }),
    {
        Order { qty, price, seniority: 0, cleared: false }
    }

    /// Whether the order may wait in the book.
    pub fn can_rest(&self) -> (b: bool)
        ensures
            b == self.is_resting(),
    {
        self.qty > 0 && !self.cleared && self.price.fits_book()
    }
}

/// The sum of the open quantities of `s`.
pub open spec fn total_qty(s: Seq<Order>) -> int
    decreases s.len(),
{
    if s.len() == 0 {
        0
    } else {
        total_qty(s.drop_last()) + s.last().qty
    }
}

/// Every order of `s` may wait in the book.
pub open spec fn all_resting(s: Seq<Order>) -> bool {
    forall|i: int| 0 <= i < s.len() ==> (#[trigger] s[i]).is_resting()
}

} // verus!
