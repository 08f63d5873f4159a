//! The order book: the two sides, the commands that change them between
//! batches, and the batch that clears them.

use crate::auction::batch::{batch_ready, calculate_batch, fits_batch, is_outcome, BatchReport};
use crate::auction::order::{Order, Qty};
use crate::command::{Command, CommandType, OrderType};
use crate::price::Price;
use vstd::prelude::*;

verus! {

/// The resting orders of both sides.
#[derive(Clone, Debug, PartialEq)]
pub struct DoubleSidedBook {
    pub bids: Vec<Order>,
    pub asks: Vec<Order>,
}

/// Whether a cancel for `qty` at `price` speaks of the order `o`.
pub open spec fn is_match(o: Order, price: Price, qty: Qty) -> bool {
    o.price@ == price@ && o.qty == qty
}

/// Whether a cancel for `qty` at `price` speaks of an order of `s`.
pub open spec fn has_match(s: Seq<Order>, price: Price, qty: Qty) -> bool {
    exists|i: int| 0 <= i < s.len() && is_match(#[trigger] s[i], price, qty)
}

/// Order `i` is the one that a cancel for `qty` at `price` takes out of `s`:
/// of the orders it speaks of the one with the most seniority, and of several
/// such the one that stands first.
pub open spec fn is_oldest_match(s: Seq<Order>, price: Price, qty: Qty, i: int) -> bool {
    &&& 0 <= i < s.len()
    &&& is_match(s[i], price, qty)
    &&& forall|j: int|
        0 <= j < s.len() && is_match(#[trigger] s[j], price, qty) ==> s[j].seniority < s[i].seniority
            || (s[j].seniority == s[i].seniority && i <= j)
}

/// What a cancel for `qty` at `price` makes of the side `before`.
pub open spec fn is_side_after_cancel(before: Seq<Order>, after: Seq<Order>, price: Price, qty: Qty) -> bool {
    if has_match(before, price, qty) {
        exists|i: int| is_oldest_match(before, price, qty, i) && after == before.remove(i)
    } else {
        after == before
    }
}

/// A cancel takes out one order, and which one is settled.
pub proof fn lemma_oldest_match_is_unique(s: Seq<Order>, price: Price, qty: Qty, i: int, j: int)
    requires
        is_oldest_match(s, price, qty, i),
        is_oldest_match(s, price, qty, j),
    ensures
        i == j,
{
}

/// Takes the order that a cancel for `qty` at `price` speaks of out of one
/// side and hands it back; `None` where it speaks of no order, and the side
/// is then as it was.
pub fn cancel_order(orders: &mut Vec<Order>, price: &Price, qty: Qty) -> (removed: Option<Order>)
    ensures
        is_side_after_cancel(old(orders)@, final(orders)@, *price, qty),
        removed is Some == has_match(old(orders)@, *price, qty),
        removed matches Some(o) ==> is_match(o, *price, qty) && old(orders)@.contains(o),
{
    let mut found: Option<usize> = None;
    let mut i: usize = 0;
    while i < orders.len()
        invariant
            i <= orders@.len(),
            orders@ == old(orders)@,
            found is None ==> forall|j: int| 0 <= j < i ==> !is_match(#[trigger] orders@[j], *price, qty),
            found matches Some(at) ==> at < i && is_oldest_match(orders@.take(i as int), *price, qty, at as int),
        decreases orders@.len() - i,
    {
        let order = orders[i];
        let here = order.qty == qty && order.price.is_level(price);
        let better = match found {
            None => here,
            Some(at) => here && order.seniority > orders[at].seniority,
        };
        proof {
            let front = orders@.take(i as int);
            let next = orders@.take(i + 1);
            assert forall|j: int| 0 <= j < i implies next[j] == front[j] by {}
            assert(next[i as int] == order);
            if better {
                assert forall|j: int| 0 <= j < next.len() && is_match(#[trigger] next[j], *price, qty) implies next[j].seniority
                    < next[i as int].seniority || (next[j].seniority == next[i as int].seniority && i
                    <= j) by {
                    if j < i {
                        assert(front[j] == next[j]);
                        match found {
                            Some(at) => {
                                assert(is_match(front[j], *price, qty));
                            },
                            None => {
                                assert(orders@[j] == front[j]);
                            },
                        }
                    }
                }
            } else {
                match found {
                    Some(at) => {
                        assert forall|j: int| 0 <= j < next.len() && is_match(#[trigger] next[j], *price, qty) implies next[j].seniority
                            < next[at as int].seniority || (next[j].seniority == next[at as int].seniority
                            && at <= j) by {
                            if j < i {
                                assert(front[j] == next[j]);
                                assert(is_match(front[j], *price, qty));
                            }
                        }
                    },
                    None => {},
                }
            }
        }
        if better {
            found = Some(i);
        }
        i = i + 1;
    }
    assert(orders@.take(i as int) =~= orders@);
    match found {
        Some(at) => {
            let order = orders.remove(at);
            proof {
                assert(is_match(old(orders)@[at as int], *price, qty));
                assert(old(orders)@.contains(order));
            }
            Some(order)
        },
        None => None,
    }
}

/// What the command `c` makes of the book `bids`, `asks`.
pub open spec fn is_book_after(
    bids: Seq<Order>,
    asks: Seq<Order>,
    c: Command,
    bids_after: Seq<Order>,
    asks_after: Seq<Order>,
) -> bool {
    let added = Order { qty: c.qty, price: c.price, seniority: 0, cleared: false };
    match (c.order_type, c.command_type) {
        (OrderType::Buy, CommandType::Add) => bids_after == bids.push(added) && asks_after == asks,
        (OrderType::Sell, CommandType::Add) => asks_after == asks.push(added) && bids_after == bids,
        (OrderType::Buy, CommandType::Cancel) => is_side_after_cancel(bids, bids_after, c.price, c.qty)
            && asks_after == asks,
        (OrderType::Sell, CommandType::Cancel) => is_side_after_cancel(asks, asks_after, c.price, c.qty)
            && bids_after == bids,
    }
}

impl DoubleSidedBook {
    /// A book without orders.
    pub fn new() -> (book: DoubleSidedBook)
        ensures
            book.bids@.len() == 0,
            book.asks@.len() == 0,
    {
        DoubleSidedBook { bids: Vec::new(), asks: Vec::new() }
    }

    /// Carries out one command. An add puts a new order, without seniority,
    /// at the end of its side. A cancel takes the oldest order of its side
    /// with that price and quantity out, and changes nothing where there is
    /// none.
    pub fn apply(&mut self, command: &Command)
        ensures
            is_book_after(
                old(self).bids@,
                old(self).asks@,
                *command,
                final(self).bids@,
                final(self).asks@,
            ),
    {
        match command.order_type {
            OrderType::Buy => match command.command_type {
                CommandType::Add => {
                    self.bids.push(Order::new(command.price, command.qty));
                },
                CommandType::Cancel => {
                    let _ = cancel_order(&mut self.bids, &command.price, command.qty);
                },
            },
            OrderType::Sell => match command.command_type {
                CommandType::Add => {
                    self.asks.push(Order::new(command.price, command.qty));
                },
                CommandType::Cancel => {
                    let _ = cancel_order(&mut self.asks, &command.price, command.qty);
                },
            },
        }
    }

    /// Runs one batch on the book where the book is within what a batch can
    /// count, and leaves the book alone and returns `None` where it is not.
    pub fn run_batch(&mut self) -> (r: Option<BatchReport>)
        ensures
            r is Some == fits_batch(old(self).bids@, old(self).asks@),
            r is None ==> final(self).bids@ == old(self).bids@ && final(self).asks@ == old(self).asks@,
            r matches Some(report) ==> is_outcome(
                old(self).bids@,
                old(self).asks@,
                report@,
                final(self).bids@,
                final(self).asks@,
            ),
    {
        if batch_ready(self.bids.as_slice(), self.asks.as_slice()) {
            Some(calculate_batch(&mut self.bids, &mut self.asks))
        } else {
            None
        }
    }
}

} // verus!
