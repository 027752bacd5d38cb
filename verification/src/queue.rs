//! The bounded ingestion queue.
//!
//! Orders wait in a `crossbeam_queue::ArrayQueue` between submission and the
//! matching worker. This module is the whole of the library's trust in that
//! crate: it declares the type, names what a queue holds, and states what
//! each call does to it. The library reaches the queue only through an
//! exclusive borrow, so no change to it escapes these contracts.

use vstd::prelude::*;
use crossbeam_queue::ArrayQueue;
use crate::orderbook::order::Order;

verus! {

#[verifier::external_type_specification]
#[verifier::external_body]
#[verifier::reject_recursive_types(T)]
pub struct ExArrayQueue<T>(ArrayQueue<T>);

/// The orders waiting in a queue, the oldest first.
pub uninterp spec fn queued(q: &ArrayQueue<Order>) -> Seq<Order>;

/// The number of orders a queue was made to hold.
pub uninterp spec fn capacity_of(q: &ArrayQueue<Order>) -> nat;

/// `ArrayQueue::new`: a queue of the given capacity that holds nothing. The
/// call panics on a capacity of zero, which the precondition leaves out.
#[verifier::external_body]
pub(crate) fn queue_new(capacity: usize) -> (q: ArrayQueue<Order>)
    requires
        capacity > 0,
    ensures
        queued(&q) == Seq::<Order>::empty(),
        capacity_of(&q) == capacity,
{
    ArrayQueue::new(capacity)
}

/// `ArrayQueue::push`: on a queue with room the order goes to the back; a
/// full queue is left as it is and hands the order back.
#[verifier::external_body]
pub(crate) fn queue_push(q: &mut ArrayQueue<Order>, order: Order) -> (r: Result<(), Order>)
    ensures
        capacity_of(final(q)) == capacity_of(old(q)),
        queued(final(q)).len() <= capacity_of(final(q)),
        match r {
            Ok(_) => queued(old(q)).len() < capacity_of(old(q)) && queued(final(q)) == queued(
                old(q),
            ).push(order),
            Err(back) => queued(old(q)).len() >= capacity_of(old(q)) && back == order && queued(
                final(q),
            ) == queued(old(q)),
        },
{
    q.push(order).map_err(|e| e.0)
}

/// `ArrayQueue::pop`: the oldest order leaves the queue; an empty queue
/// gives nothing and stays empty.
#[verifier::external_body]
pub(crate) fn queue_pop(q: &mut ArrayQueue<Order>) -> (r: Option<Order>)
    ensures
        capacity_of(final(q)) == capacity_of(old(q)),
        match r {
            Some(order) => queued(old(q)).len() > 0 && order == queued(old(q))[0] && queued(
                final(q),
            ) == queued(old(q)).drop_first(),
            None => queued(old(q)).len() == 0 && queued(final(q)) == queued(old(q)),
        },
{
    q.pop().ok()
}

/// `ArrayQueue::is_empty`: whether the queue holds nothing.
#[verifier::external_body]
pub(crate) fn queue_is_empty(q: &ArrayQueue<Order>) -> (empty: bool)
    ensures
        empty == (queued(q).len() == 0),
{
    q.is_empty()
}

/// `ArrayQueue::is_full`: whether the queue holds as many orders as it was
/// made for.
#[verifier::external_body]
pub(crate) fn queue_is_full(q: &ArrayQueue<Order>) -> (full: bool)
    ensures
        full == (queued(q).len() >= capacity_of(q)),
{
    q.is_full()
}

/// Takes every waiting order out of the queue, the oldest first.
pub(crate) fn drain(q: &mut ArrayQueue<Order>) -> (orders: Vec<Order>)
    ensures
        orders@ == queued(old(q)),
        queued(final(q)) == Seq::<Order>::empty(),
        capacity_of(final(q)) == capacity_of(old(q)),
{
    let mut orders: Vec<Order> = Vec::new();
    loop
        invariant
            orders@ + queued(q) == queued(old(q)),
            capacity_of(q) == capacity_of(old(q)),
        ensures
            orders@ == queued(old(q)),
            queued(q) == Seq::<Order>::empty(),
            capacity_of(q) == capacity_of(old(q)),
        decreases queued(q).len(),
    {
        let ghost before = queued(q);
        match queue_pop(q) {
            Some(order) => {
                orders.push(order);
                proof {
                    assert(orders@ + queued(q) =~= orders@.drop_last() + before);
                }
            },
            None => {
                proof {
                    assert(orders@ + queued(q) =~= orders@);
                    assert(queued(q) =~= Seq::<Order>::empty());
                }
                break ;
            },
        }
    }
    orders
}

} // verus!
