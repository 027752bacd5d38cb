//! The service that applies the fills of settled trades to a book.

pub mod reboot;

use vstd::prelude::*;
use crate::orderbook::{BookView, OrderBook};

verus! {

/// The fill of one order in a settled trade.
#[derive(Clone, Copy, Debug, PartialEq, Eq, Structural)]
pub struct OrderMatch {
    pub order_id: u32,
    pub matched_volume: u32,
}

/// A settled trade: the fills of the orders that took part.
#[derive(Clone, Debug)]
pub struct OrdersMatchedEvent {
    pub matches: Vec<OrderMatch>,
}

/// The book after the fills are taken off it, the first one first.
pub open spec fn book_after_fills(book: BookView, fills: Seq<OrderMatch>) -> BookView
    decreases fills.len(),
{
    if fills.len() == 0 {
        book
    } else {
        book_after_fills(book, fills.drop_last()).with_reduction(
            fills.last().order_id,
            fills.last().matched_volume,
        )
    }
}

/// A book that is brought up to date by the events of settled trades.
#[derive(Clone, Debug)]
pub struct RebootService {
    order_book: OrderBook,
}

impl View for RebootService {
    type V = BookView;

    closed spec fn view(&self) -> BookView {
        self.order_book@
    }
}

impl RebootService {
    /// The invariant of the service: its book is well formed.
    pub open spec fn wf(&self) -> bool {
        self@.wf()
    }

    /// A service with an empty book.
    pub fn new() -> (service: RebootService)
        ensures
            service@ == BookView::empty(),
            service.wf(),
    {
        RebootService { order_book: OrderBook::new() }
    }

    /// The book of the service.
    pub fn order_book(&self) -> (book: &OrderBook)
        ensures
            book@ == self@,
    {
        &self.order_book
    }

    /// A service that starts from a book rebuilt elsewhere.
    pub fn with_order_book(order_book: OrderBook) -> (service: RebootService)
        requires
            order_book.wf(),
        ensures
            service@ == order_book@,
            service.wf(),
    {
        RebootService { order_book }
    }

    /// Applies a settled trade: each fill is taken off the volume of its
    /// order, and an order that is used up leaves the book. A fill for an
    /// order that is not in the book changes nothing.
    pub fn process_events(&mut self, event: OrdersMatchedEvent)
        requires
            old(self).wf(),
        ensures
            final(self)@ == book_after_fills(old(self)@, event.matches@),
            final(self).wf(),
            old(self)@.ids_unique() ==> final(self)@.ids_unique(),
    {
        let mut i: usize = 0;
        proof {
            assert(event.matches@.take(0) =~= Seq::<OrderMatch>::empty());
        }
        while i < event.matches.len()
            invariant
                0 <= i <= event.matches.len(),
                self.wf(),
                self@ == book_after_fills(old(self)@, event.matches@.take(i as int)),
                old(self)@.ids_unique() ==> self@.ids_unique(),
            decreases event.matches.len() - i,
        {
            proof {
                assert(event.matches@.take(i + 1).drop_last() =~= event.matches@.take(i as int));
                assert(event.matches@.take(i + 1).last() == event.matches@[i as int]);
            }
            let fill = event.matches[i];
            self.order_book.modify_order_volume(fill.order_id, fill.matched_volume);
            i += 1;
        }
        proof {
            assert(event.matches@.take(i as int) =~= event.matches@);
        }
    }
}

} // verus!
