//! The matching worker and its ingestion queue.
//!
//! Producers hand orders to [`OrderManagement::add_order`], which numbers
//! them and puts them on a bounded queue. The worker, which alone owns the
//! books, calls [`OrderManagement::match_orders`] once per cycle: the queue
//! is drained, each order is applied to the book of its instrument, and every
//! instrument that was touched is asked for a crossing pair. A pair that has
//! settled is applied with [`OrderManagement::execute_trade`].

use vstd::prelude::*;
use std::collections::HashMap;
use crossbeam_queue::ArrayQueue;
use crate::orderbook::order::{Order, OrderSide};
use crate::orderbook::{BookView, MatchedOrders, OrderBook};
use crate::queue::{capacity_of, drain, queue_is_empty, queue_is_full, queue_new, queue_push, queued};

verus! {

broadcast use vstd::std_specs::hash::group_hash_axioms;

/// How many orders the ingestion queue holds at most.
pub const QUEUE_CAPACITY: usize = 1000;

/// How long a producer waits for room in the queue before its order is
/// turned away, in milliseconds.
pub const ADMISSION_TIMEOUT_MS: u64 = 1000;

/// How long a producer sleeps between two looks at a full queue, in
/// milliseconds.
pub const ADMISSION_POLL_MS: u64 = 10;

/// What a producer does next while it waits for room in the queue.
#[derive(Clone, Copy, Debug, PartialEq, Eq, Structural)]
pub enum AdmissionStep {
    /// There is room: hand the order in.
    Enqueue,
    /// The queue is full and the wait is not over: sleep, then look again.
    Wait,
    /// The queue is still full after the whole wait: the order is turned away.
    Reject,
}

/// A crossing pair found in the book of one instrument.
#[derive(Clone, Copy, Debug, PartialEq, Eq, Structural)]
pub struct InstrumentMatch {
    pub contract_id: u32,
    pub matched: MatchedOrders,
}

/// A trade between a buy and a sell of one instrument.
#[derive(Clone, Copy, Debug, PartialEq, Eq, Structural)]
pub struct TradeExecution {
    pub contract_id: u32,
    pub buy_order_id: u32,
    pub sell_order_id: u32,
    pub volume: u32,
    pub price: u32,
}

/// What one cycle of the worker did.
#[derive(Debug)]
pub struct MatchCycle {
    /// Whether the queue held anything.
    pub worked: bool,
    /// The instruments whose books took an order, in the order in which they
    /// were first touched.
    pub touched: Vec<u32>,
    /// The crossing pairs found in the touched books, in the same order.
    pub matches: Vec<InstrumentMatch>,
}

/// The book of an instrument, which is empty until an order names it.
pub open spec fn book_of(books: Map<u32, BookView>, contract_id: u32) -> BookView {
    if books.contains_key(contract_id) {
        books[contract_id]
    } else {
        BookView::empty()
    }
}

/// The books after one order is applied to the book of its instrument.
pub open spec fn books_with(books: Map<u32, BookView>, o: Order) -> Map<u32, BookView> {
    books.insert(o.contract_id, book_of(books, o.contract_id).with_update(o))
}

/// The books after a sequence of orders is applied, the first one first.
pub open spec fn books_after(books: Map<u32, BookView>, orders: Seq<Order>) -> Map<u32, BookView>
    decreases orders.len(),
{
    if orders.len() == 0 {
        books
    } else {
        books_with(books_after(books, orders.drop_last()), orders.last())
    }
}

/// The instruments that a sequence of orders names, each once, in the order
/// in which they are first named.
pub open spec fn touched_by(orders: Seq<Order>) -> Seq<u32>
    decreases orders.len(),
{
    if orders.len() == 0 {
        Seq::empty()
    } else {
        let before = touched_by(orders.drop_last());
        if before.contains(orders.last().contract_id) {
            before
        } else {
            before.push(orders.last().contract_id)
        }
    }
}

/// The crossing pairs of the given instruments, in the order of the
/// instruments; an instrument whose best orders do not cross gives none.
pub open spec fn matches_in(books: Map<u32, BookView>, touched: Seq<u32>) -> Seq<InstrumentMatch>
    decreases touched.len(),
{
    if touched.len() == 0 {
        Seq::empty()
    } else {
        let before = matches_in(books, touched.drop_last());
        match book_of(books, touched.last()).matched() {
            Some(matched) => before.push(
                InstrumentMatch { contract_id: touched.last(), matched },
            ),
            None => before,
        }
    }
}

/// What a cycle of the worker makes of its state, and what it tells of it:
/// the queue is empty, every order that waited is in the book of its
/// instrument, and the cycle names the instruments touched and the pairs
/// that cross in them.
pub open spec fn ran_cycle(before: ManagementView, cycle: MatchCycle, after: ManagementView) -> bool {
    &&& cycle.worked == (before.waiting.len() > 0)
    &&& cycle.touched@ == touched_by(before.waiting)
    &&& cycle.matches@ == matches_in(after.books, cycle.touched@)
    &&& after == (ManagementView {
        books: books_after(before.books, before.waiting),
        waiting: Seq::empty(),
        ..before
    })
}

/// The orders of a sequence that name the given instrument, in their order.
pub open spec fn orders_for(orders: Seq<Order>, contract_id: u32) -> Seq<Order> {
    orders.filter(|o: Order| o.contract_id == contract_id)
}

/// Books do not mix: what a run of orders makes of the book of one
/// instrument is what the orders that name this instrument make of it, and
/// the orders of other instruments do not matter to it. Within the
/// instrument the last order of each id decides, as `lemma_last_write_wins`
/// says of every book.
pub proof fn lemma_books_after_by_instrument(
    books: Map<u32, BookView>,
    orders: Seq<Order>,
    contract_id: u32,
)
    ensures
        book_of(books_after(books, orders), contract_id) == book_of(
            books,
            contract_id,
        ).after_updates(orders_for(orders, contract_id)),
    decreases orders.len(),
{
    let named = |o: Order| o.contract_id == contract_id;
    if orders.len() == 0 {
        assert(orders.filter(named) =~= Seq::<Order>::empty()) by {
            reveal(Seq::filter);
        }
    } else {
        let init = orders.drop_last();
        let x = orders.last();
        lemma_books_after_by_instrument(books, init, contract_id);
        assert(orders =~= init.push(x));
        init.lemma_filter_push(x, named);
        if x.contract_id == contract_id {
            let kept = init.filter(named).push(x);
            assert(kept.drop_last() =~= init.filter(named));
            assert(kept.last() == x);
        }
    }
}

/// Every book is well formed and holds no id twice.
pub open spec fn books_wf(books: Map<u32, BookView>) -> bool {
    forall|k: u32| books.contains_key(k) ==> (#[trigger] books[k]).wf() && books[k].ids_unique()
}

/// The least of two volumes.
pub open spec fn least(a: u32, b: u32) -> u32 {
    if a <= b {
        a
    } else {
        b
    }
}

/// The mathematical model of the worker's state.
pub struct ManagementView {
    /// The book of each instrument that an order has named.
    pub books: Map<u32, BookView>,
    /// The orders waiting in the queue, the oldest first.
    pub waiting: Seq<Order>,
    /// How many orders the queue holds at most.
    pub capacity: nat,
    /// The id that the next accepted order gets.
    pub next_order_id: u32,
    /// The volume of all orders accepted so far.
    pub total_volume: u64,
    /// The volume of all trades executed so far, held at the largest number
    /// that fits once it is reached.
    pub total_traded_volume: u64,
}

/// The matching worker: the books of all instruments and the queue that
/// feeds them.
pub struct OrderManagement {
    order_books: HashMap<u32, OrderBook>,
    queue: ArrayQueue<Order>,
    order_id: u32,
    total_volume: u64,
    total_traded_volume: u64,
}

impl View for OrderManagement {
    type V = ManagementView;

    closed spec fn view(&self) -> ManagementView {
        ManagementView {
            books: self.order_books@.map_values(|b: OrderBook| b@),
            waiting: queued(&self.queue),
            capacity: capacity_of(&self.queue),
            next_order_id: self.order_id,
            total_volume: self.total_volume,
            total_traded_volume: self.total_traded_volume,
        }
    }
}

impl OrderManagement {
    /// The invariant of the worker's state.
    pub open spec fn wf(&self) -> bool {
        &&& books_wf(self@.books)
        &&& self@.waiting.len() <= self@.capacity
        &&& self@.total_volume <= self@.next_order_id * 0x7fff_ffff
    }

    /// A worker without books, with an empty queue of `QUEUE_CAPACITY`.
    pub fn new() -> (management: OrderManagement)
        ensures
            management@ == (ManagementView {
                books: Map::empty(),
                waiting: Seq::empty(),
                capacity: QUEUE_CAPACITY as nat,
                next_order_id: 0,
                total_volume: 0,
                total_traded_volume: 0,
            }),
            management.wf(),
    {
        let management = OrderManagement {
            order_books: HashMap::new(),
            queue: queue_new(QUEUE_CAPACITY),
            order_id: 0,
            total_volume: 0,
            total_traded_volume: 0,
        };
        proof {
            assert(management@.books =~= Map::<u32, BookView>::empty());
        }
        management
    }

    /// What a producer that has waited `waited_ms` for room does next: hand
    /// the order in if there is room, else wait on, and give up once the wait
    /// has passed `ADMISSION_TIMEOUT_MS`.
    pub fn admission_step(&self, waited_ms: u64) -> (step: AdmissionStep)
        ensures
            step == if self@.waiting.len() < self@.capacity {
                AdmissionStep::Enqueue
            } else if waited_ms > ADMISSION_TIMEOUT_MS {
                AdmissionStep::Reject
            } else {
                AdmissionStep::Wait
            },
    {
        if !queue_is_full(&self.queue) {
            AdmissionStep::Enqueue
        } else if waited_ms > ADMISSION_TIMEOUT_MS {
            AdmissionStep::Reject
        } else {
            AdmissionStep::Wait
        }
    }

    /// Takes an order in: it gets the next id and goes to the back of the
    /// queue. An order whose volume is not positive is turned away, and so is
    /// any order while the queue is full or once all ids are used up; the
    /// state is then left as it was.
    pub fn add_order(&mut self, contract_id: u32, volume: i32, price: u32, side: OrderSide) -> (accepted:
        bool)
        requires
            old(self).wf(),
        ensures
            accepted == (volume >= 1 && old(self)@.waiting.len() < old(self)@.capacity && old(
                self,
            )@.next_order_id < u32::MAX),
            accepted ==> final(self)@ == (ManagementView {
                waiting: old(self)@.waiting.push(
                    Order {
                        id: old(self)@.next_order_id,
                        contract_id,
                        volume: volume as u32,
                        price,
                        side,
                    },
                ),
                next_order_id: (old(self)@.next_order_id + 1) as u32,
                total_volume: (old(self)@.total_volume + volume) as u64,
                ..old(self)@
            }),
            !accepted ==> final(self)@ == old(self)@,
            final(self).wf(),
    {
        if volume < 1 || self.order_id == u32::MAX {
            return false;
        }
        let order = Order { id: self.order_id, contract_id, volume: volume as u32, price, side };
        match queue_push(&mut self.queue, order) {
            Ok(_) => {
                self.order_id = self.order_id + 1;
                self.total_volume = self.total_volume + volume as u64;
                true
            },
            Err(_) => false,
        }
    }

    /// The id that the next accepted order gets.
    pub fn next_order_id(&self) -> (id: u32)
        ensures
            id == self@.next_order_id,
    {
        self.order_id
    }

    /// The volume of all orders accepted so far.
    pub fn total_volume(&self) -> (volume: u64)
        ensures
            volume == self@.total_volume,
    {
        self.total_volume
    }

    /// The volume of all trades executed so far.
    pub fn total_traded_volume(&self) -> (volume: u64)
        ensures
            volume == self@.total_traded_volume,
    {
        self.total_traded_volume
    }

    /// The book of an instrument, if an order has named it.
    pub fn order_book(&self, contract_id: u32) -> (book: Option<&OrderBook>)
        ensures
            book is Some == self@.books.contains_key(contract_id),
            book matches Some(b) ==> b@ == self@.books[contract_id],
    {
        self.order_books.get(&contract_id)
    }

    /// Applies one order to the book of its instrument.
    fn apply(&mut self, order: Order)
        requires
            old(self).wf(),
        ensures
            final(self)@ == (ManagementView { books: books_with(old(self)@.books, order), ..old(self)@ }),
            final(self).wf(),
    {
        let ghost before = self.order_books@;
        let found = self.order_books.remove(&order.contract_id);
        let mut book = match found {
            Some(book) => book,
            None => OrderBook::new(),
        };
        proof {
            assert(book@ == book_of(old(self)@.books, order.contract_id));
            if before.contains_key(order.contract_id) {
                assert(old(self)@.books[order.contract_id] == book@);
            }
        }
        book.update_order(order);
        self.order_books.insert(order.contract_id, book);
        proof {
            assert(self.order_books@ =~= before.insert(order.contract_id, book));
            assert(self@.books =~= books_with(old(self)@.books, order));
            assert forall|k: u32| self@.books.contains_key(k) implies (#[trigger] self@.books[k]).wf()
                && self@.books[k].ids_unique() by {
                if k != order.contract_id {
                    assert(old(self)@.books.contains_key(k));
                    assert(self@.books[k] == old(self)@.books[k]);
                }
            }
        }
    }

    /// One cycle of the worker. Every waiting order is taken off the queue
    /// and applied, oldest first, to the book of its instrument, where it
    /// replaces whatever rested under its id. Then each instrument that was
    /// touched is asked once for its crossing pair. No volume changes here: a
    /// pair is applied with `execute_trade` once it has settled.
    pub fn match_orders(&mut self) -> (cycle: MatchCycle)
        requires
            old(self).wf(),
        ensures
            ran_cycle(old(self)@, cycle, final(self)@),
            final(self).wf(),
    {
        if queue_is_empty(&self.queue) {
            proof {
                assert(self@.waiting =~= Seq::<Order>::empty());
            }
            return MatchCycle { worked: false, touched: Vec::new(), matches: Vec::new() };
        }
        let orders = drain(&mut self.queue);
        let mut touched: Vec<u32> = Vec::new();
        let mut i: usize = 0;
        proof {
            assert(orders@.take(0) =~= Seq::<Order>::empty());
        }
        while i < orders.len()
            invariant
                0 <= i <= orders.len(),
                orders@ == old(self)@.waiting,
                self.wf(),
                touched@ == touched_by(orders@.take(i as int)),
                self@ == (ManagementView {
                    books: books_after(old(self)@.books, orders@.take(i as int)),
                    waiting: Seq::empty(),
                    ..old(self)@
                }),
            decreases orders.len() - i,
        {
            let order = orders[i];
            proof {
                assert(orders@.take(i + 1).drop_last() =~= orders@.take(i as int));
                assert(orders@.take(i + 1).last() == order);
            }
            if !holds(&touched, order.contract_id) {
                touched.push(order.contract_id);
            }
            self.apply(order);
            i += 1;
        }
        proof {
            assert(orders@.take(i as int) =~= orders@);
        }
        let mut matches: Vec<InstrumentMatch> = Vec::new();
        let mut j: usize = 0;
        proof {
            assert(touched@.take(0) =~= Seq::<u32>::empty());
        }
        while j < touched.len()
            invariant
                0 <= j <= touched.len(),
                matches@ == matches_in(self@.books, touched@.take(j as int)),
            decreases touched.len() - j,
        {
            let contract_id: u32 = touched[j];
            proof {
                assert(touched@.take(j + 1).drop_last() =~= touched@.take(j as int));
                assert(touched@.take(j + 1).last() == contract_id);
            }
            match self.order_books.get(&contract_id) {
                Some(book) => {
                    match book.find_matching_orders() {
                        Some(matched) => {
                            matches.push(InstrumentMatch { contract_id, matched });
                        },
                        None => {},
                    }
                },
                None => {},
            }
            j += 1;
        }
        proof {
            assert(touched@.take(j as int) =~= touched@);
        }
        MatchCycle { worked: true, touched, matches }
    }

    /// Applies a settled pair to the book of its instrument. The pair counts
    /// only if it still is what the book offers: then the trade takes the
    /// lesser of the two volumes, at the price of the buy, off both orders,
    /// and the one that is used up leaves the book. A pair that the book no
    /// longer offers changes nothing.
    pub fn execute_trade(&mut self, contract_id: u32, matched: MatchedOrders) -> (trade: Option<
        TradeExecution,
    >)
        requires
            old(self).wf(),
        ensures
            trade == trade_of(old(self)@.books, contract_id, matched),
            final(self)@ == after_trade(old(self)@, trade),
            final(self).wf(),
    {
        let ghost before = self.order_books@;
        let trade = match self.order_books.get(&contract_id) {
            Some(book) => {
                match book.best_crossing_pair() {
                    Some((buy, sell)) => {
                        let offered = if buy.id < sell.id {
                            MatchedOrders { taker_order_id: sell.id, maker_order_id: buy.id }
                        } else {
                            MatchedOrders { taker_order_id: buy.id, maker_order_id: sell.id }
                        };
                        if offered.taker_order_id == matched.taker_order_id
                            && offered.maker_order_id == matched.maker_order_id {
                            let volume: u32 = if buy.volume <= sell.volume {
                                buy.volume
                            } else {
                                sell.volume
                            };
                            Some(
                                TradeExecution {
                                    contract_id,
                                    buy_order_id: buy.id,
                                    sell_order_id: sell.id,
                                    volume,
                                    price: buy.price,
                                },
                            )
                        } else {
                            None
                        }
                    },
                    None => None,
                }
            },
            None => None,
        };
        match trade {
            Some(t) => {
                let found = self.order_books.remove(&contract_id);
                let mut book = match found {
                    Some(book) => book,
                    None => OrderBook::new(),
                };
                proof {
                    assert(old(self)@.books[contract_id] == book@);
                }
                book.modify_order_volume(t.buy_order_id, t.volume);
                book.modify_order_volume(t.sell_order_id, t.volume);
                self.order_books.insert(contract_id, book);
                self.total_traded_volume = self.total_traded_volume.saturating_add(t.volume as u64);
                proof {
                    assert(self.order_books@ =~= before.insert(contract_id, book));
                    assert(self@.books =~= old(self)@.books.insert(contract_id, book@));
                    assert forall|k: u32| self@.books.contains_key(k) implies (
                    #[trigger] self@.books[k]).wf() && self@.books[k].ids_unique() by {
                        if k != contract_id {
                            assert(old(self)@.books.contains_key(k));
                            assert(self@.books[k] == old(self)@.books[k]);
                        }
                    }
                }
            },
            None => {},
        }
        trade
    }
}

/// The trade that a settled pair stands for, if the book of the instrument
/// still offers that pair.
pub open spec fn trade_of(books: Map<u32, BookView>, contract_id: u32, matched: MatchedOrders) -> Option<
    TradeExecution,
> {
    if books.contains_key(contract_id) && books[contract_id].matched() == Some(matched) {
        let buy = books[contract_id].buys[0];
        let sell = books[contract_id].sells[0];
        Some(
            TradeExecution {
                contract_id,
                buy_order_id: buy.id,
                sell_order_id: sell.id,
                volume: least(buy.volume, sell.volume),
                price: buy.price,
            },
        )
    } else {
        None
    }
}

/// The worker's state after a trade: the volume of the trade is off both
/// orders in the book of the instrument, and on the count of traded volume.
/// Without a trade nothing changes.
pub open spec fn after_trade(before: ManagementView, trade: Option<TradeExecution>) -> ManagementView {
    match trade {
        Some(t) => ManagementView {
            books: before.books.insert(
                t.contract_id,
                before.books[t.contract_id].with_reduction(t.buy_order_id, t.volume).with_reduction(
                    t.sell_order_id,
                    t.volume,
                ),
            ),
            total_traded_volume: if before.total_traded_volume + t.volume > u64::MAX {
                u64::MAX
            } else {
                (before.total_traded_volume + t.volume) as u64
            },
            ..before
        },
        None => before,
    }
}

/// Whether a list of instruments names the given one.
fn holds(list: &Vec<u32>, contract_id: u32) -> (found: bool)
    ensures
        found == list@.contains(contract_id),
{
    let mut i: usize = 0;
    while i < list.len()
        invariant
            0 <= i <= list.len(),
            forall|k: int| 0 <= k < i ==> list@[k] != contract_id,
        decreases list.len() - i,
    {
        if list[i] == contract_id {
            return true;
        }
        i += 1;
    }
    false
}

} // verus!
