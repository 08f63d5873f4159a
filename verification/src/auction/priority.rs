//! The order in which a side of the book is matched: by price, the better
//! price first, and among equal prices the older order first.

use crate::auction::order::{Order, Side};
use crate::price::Standing;
use vstd::prelude::*;

verus! {

/// Whether `a` is matched strictly before `b` on `side`.
pub open spec fn outranks(side: Side, a: Order, b: Order) -> bool {
    match side {
        Side::Bid => a.price@ > b.price@ || (a.price@ == b.price@ && a.seniority > b.seniority),
        Side::Ask => a.price@ < b.price@ || (a.price@ == b.price@ && a.seniority > b.seniority),
    }
}

/// No order of `s` stands behind one that it outranks.
pub open spec fn in_priority_order(s: Seq<Order>, side: Side) -> bool {
    forall|i: int, j: int| 0 <= i < j < s.len() ==> !outranks(side, s[j], s[i])
}

/// `s` with `x` put in behind every order that it does not outrank.
pub open spec fn insert_by_priority(s: Seq<Order>, x: Order, side: Side) -> Seq<Order>
    decreases s.len(),
{
    if s.len() > 0 && outranks(side, x, s.last()) {
        insert_by_priority(s.drop_last(), x, side).push(s.last())
    } else {
        s.push(x)
    }
}

/// The orders of `s` in priority order; orders of equal rank keep the order
/// they had in `s`.
pub open spec fn by_priority(s: Seq<Order>, side: Side) -> Seq<Order>
    decreases s.len(),
{
    if s.len() == 0 {
        s
    } else {
        insert_by_priority(by_priority(s.drop_last(), side), s.last(), side)
    }
}

/// Where `insert_by_priority` puts `x`: in front of the orders it outranks,
/// which stand at the end of an ordered `s`.
pub proof fn lemma_insert_position(s: Seq<Order>, x: Order, side: Side, j: int)
    requires
        0 <= j <= s.len(),
        forall|k: int| j <= k < s.len() ==> outranks(side, x, #[trigger] s[k]),
        j == 0 || !outranks(side, x, s[j - 1]),
    ensures
        insert_by_priority(s, x, side) == s.insert(j, x),
    decreases s.len() - j,
{
    if j < s.len() {
        let front = s.drop_last();
        lemma_insert_position(front, x, side, j);
        assert(front.insert(j, x).push(s.last()) =~= s.insert(j, x));
    } else {
        assert(s.push(x) =~= s.insert(j, x));
    }
}

/// Putting an order in keeps the others and adds the one.
pub proof fn lemma_insert_keeps_orders(s: Seq<Order>, x: Order, side: Side)
    ensures
        insert_by_priority(s, x, side).len() == s.len() + 1,
        insert_by_priority(s, x, side).to_multiset() == s.to_multiset().insert(x),
    decreases s.len(),
{
    broadcast use vstd::seq_lib::group_to_multiset_ensures;

    if s.len() > 0 && outranks(side, x, s.last()) {
        let front = s.drop_last();
        lemma_insert_keeps_orders(front, x, side);
        assert(front.push(s.last()) =~= s);
        assert(insert_by_priority(front, x, side).push(s.last()).to_multiset()
            =~= s.to_multiset().insert(x));
    }
}

/// Putting an order into an ordered sequence leaves it ordered.
pub proof fn lemma_insert_keeps_order(s: Seq<Order>, x: Order, side: Side)
    requires
        in_priority_order(s, side),
    ensures
        in_priority_order(insert_by_priority(s, x, side), side),
    decreases s.len(),
{
    let r = insert_by_priority(s, x, side);
    if s.len() > 0 && outranks(side, x, s.last()) {
        let front = s.drop_last();
        lemma_insert_keeps_order(front, x, side);
        lemma_insert_keeps_orders(front, x, side);
        let mid = insert_by_priority(front, x, side);
        // every order of `mid` is `x` or an order of `front`
        assert forall|i: int| 0 <= i < mid.len() implies !outranks(side, s.last(), #[trigger] mid[i]) by {
            lemma_insert_members(front, x, side, i);
            if mid[i] != x {
                let k = choose|k: int| 0 <= k < front.len() && front[k] == mid[i];
                assert(s[k] == front[k]);
            }
        }
        assert forall|i: int, j: int| 0 <= i < j < r.len() implies !outranks(side, r[j], r[i]) by {
            if j < mid.len() {
                assert(r[i] == mid[i] && r[j] == mid[j]);
            } else {
                assert(r[j] == s.last());
                assert(r[i] == mid[i]);
            }
        }
    } else {
        assert forall|i: int, j: int| 0 <= i < j < r.len() implies !outranks(side, r[j], r[i]) by {
            if j < s.len() {
                assert(r[i] == s[i] && r[j] == s[j]);
            } else {
                assert(r[j] == x);
                assert(r[i] == s[i]);
                if s.len() > 0 {
                    assert(!outranks(side, s[s.len() - 1], s[i]) || i == s.len() - 1);
                }
            }
        }
    }
}

/// Each order of `insert_by_priority(s, x, side)` is `x` or an order of `s`.
pub proof fn lemma_insert_members(s: Seq<Order>, x: Order, side: Side, i: int)
    requires
        0 <= i < insert_by_priority(s, x, side).len(),
    ensures
        insert_by_priority(s, x, side)[i] == x || exists|k: int|
            0 <= k < s.len() && s[k] == insert_by_priority(s, x, side)[i],
    decreases s.len(),
{
    let r = insert_by_priority(s, x, side);
    if s.len() > 0 && outranks(side, x, s.last()) {
        let front = s.drop_last();
        lemma_insert_keeps_orders(front, x, side);
        if i < r.len() - 1 {
            lemma_insert_members(front, x, side, i);
            let mid = insert_by_priority(front, x, side);
            if mid[i] != x {
                let k = choose|k: int| 0 <= k < front.len() && front[k] == mid[i];
                assert(s[k] == r[i]);
            }
        } else {
            assert(s[s.len() - 1] == r[i]);
        }
    } else {
        if i < s.len() {
            assert(s[i] == r[i]);
        }
    }
}

/// `by_priority` orders its argument and neither loses nor invents an order.
pub proof fn lemma_by_priority(s: Seq<Order>, side: Side)
    ensures
        by_priority(s, side).len() == s.len(),
        by_priority(s, side).to_multiset() == s.to_multiset(),
        in_priority_order(by_priority(s, side), side),
    decreases s.len(),
{
    broadcast use vstd::seq_lib::group_to_multiset_ensures;

    if s.len() > 0 {
        let front = s.drop_last();
        lemma_by_priority(front, side);
        lemma_insert_keeps_orders(by_priority(front, side), s.last(), side);
        lemma_insert_keeps_order(by_priority(front, side), s.last(), side);
        assert(front.push(s.last()) =~= s);
    }
}

/// Whether `a` is matched strictly before `b` on `side`.
pub fn has_priority(side: Side, a: &Order, b: &Order) -> (r: bool)
    ensures
        r == outranks(side, *a, *b),
{
    match a.price.standing(&b.price) {
        Standing::Level => a.seniority > b.seniority,
        Standing::Above => match side {
            Side::Bid => true,
            Side::Ask => false,
        },
        Standing::Below => match side {
            Side::Bid => false,
            Side::Ask => true,
        },
    }
}

/// Puts the orders of one side into priority order. Orders of equal rank
/// keep the order in which they stood.
///
/// Each order is moved forward past the orders that it outranks. A side that
/// a batch has left is in order already, and the orders that came in since
/// stand at its end, so there is little to move.
pub fn sort_by_priority(orders: &mut Vec<Order>, side: Side)
    ensures
        final(orders)@ == by_priority(old(orders)@, side),
        in_priority_order(final(orders)@, side),
        final(orders)@.to_multiset() == old(orders)@.to_multiset(),
{
    let n = orders.len();
    let mut i: usize = 0;
    while i < n
        invariant
            i <= n,
            n == old(orders)@.len(),
            orders@ == by_priority(old(orders)@.take(i as int), side) + old(orders)@.skip(i as int),
        decreases n - i,
    {
        let ghost sorted = by_priority(old(orders)@.take(i as int), side);
        let ghost rest = old(orders)@.skip(i as int);
        proof {
            lemma_by_priority(old(orders)@.take(i as int), side);
        }
        let x = orders[i];
        let mut j: usize = i;
        while j > 0 && has_priority(side, &x, &orders[j - 1])
            invariant
                j <= i < n,
                orders@ == sorted + rest,
                sorted.len() == i,
                forall|k: int| j <= k < i ==> outranks(side, x, #[trigger] sorted[k]),
            decreases j,
        {
            assert(orders@[j - 1] == sorted[j - 1]);
            j = j - 1;
        }
        proof {
            if j > 0 {
                assert(orders@[j - 1] == sorted[j - 1]);
            }
            assert(x == rest[0]);
            lemma_insert_position(sorted, x, side, j as int);
            let next = old(orders)@.take(i + 1);
            assert(next.drop_last() =~= old(orders)@.take(i as int));
            assert(next.last() == x);
            assert((sorted + rest).remove(i as int).insert(j as int, x) =~= sorted.insert(j as int, x)
                + old(orders)@.skip(i + 1));
        }
        orders.remove(i);
        orders.insert(j, x);
        i = i + 1;
    }
    proof {
        assert(old(orders)@.take(n as int) =~= old(orders)@);
        assert(orders@ =~= by_priority(old(orders)@, side));
        lemma_by_priority(old(orders)@, side);
    }
}

} // verus!
