//! The settlement coordinator of the ledger-driven book.
//!
//! The coordinator owns one book and sees four kinds of input: a batch of
//! order events from the ledger, the orders that the metadata service
//! resolved for them, the outcome of a settlement call, and the ledger's
//! confirmation of a settled pair. It decides what to resolve and what to
//! submit; the calls themselves are made by its caller. At most one
//! settlement is in flight at any time.

use vstd::prelude::*;
use crate::orderbook::laws::{lemma_after_updates_wf, lemma_without_wf};
use crate::orderbook::order::Order;
use crate::orderbook::{BookView, MatchedOrders, OrderBook};

verus! {

/// The one settlement in flight: the pair, and the ledger position that the
/// coordinator had seen when it handed the pair out.
#[derive(Clone, Copy, Debug, PartialEq, Eq, Structural)]
pub struct PendingSettlement {
    pub matched: MatchedOrders,
    pub submitted_at: u64,
}

/// Where the coordinator stands with its one settlement.
#[derive(Clone, Copy, Debug, PartialEq, Eq, Structural)]
pub enum SettlementState {
    /// Nothing is in flight; a crossing pair may be submitted.
    Idle,
    /// The pair has been handed out for submission and the outcome of the
    /// call is not known yet.
    Submitting(PendingSettlement),
    /// The call succeeded; the ledger has not confirmed the pair yet.
    AwaitingConfirmation(PendingSettlement),
}

impl SettlementState {
    /// The settlement in flight, if there is one.
    pub open spec fn pending(self) -> Option<PendingSettlement> {
        match self {
            SettlementState::Idle => None,
            SettlementState::Submitting(pending) => Some(pending),
            SettlementState::AwaitingConfirmation(pending) => Some(pending),
        }
    }
}

/// The highest ledger position among `start` and the positions of the
/// events.
pub open spec fn highest(start: u64, events: Seq<(u32, u64)>) -> u64
    decreases events.len(),
{
    if events.len() == 0 {
        start
    } else {
        let before = highest(start, events.drop_last());
        if events.last().1 > before {
            events.last().1
        } else {
            before
        }
    }
}

/// The ids are in strictly rising order.
pub open spec fn strictly_rising(ids: Seq<u32>) -> bool {
    forall|i: int, j: int| 0 <= i < j < ids.len() ==> ids[i] < ids[j]
}

/// Whether an order event of the batch names the id.
pub open spec fn names(events: Seq<(u32, u64)>, id: u32) -> bool {
    exists|k: int| 0 <= k < events.len() && (#[trigger] events[k]).0 == id
}

/// `ids` are the ids that the events name, each once, in rising order.
pub open spec fn unique_ids_of(ids: Seq<u32>, events: Seq<(u32, u64)>) -> bool {
    &&& strictly_rising(ids)
    &&& forall|id: u32| ids.contains(id) <==> names(events, id)
}

/// The orders that the lookups found, in their order; a lookup that failed
/// gives none.
pub open spec fn found_in(lookups: Seq<Option<Order>>) -> Seq<Order>
    decreases lookups.len(),
{
    if lookups.len() == 0 {
        Seq::empty()
    } else {
        let before = found_in(lookups.drop_last());
        match lookups.last() {
            Some(order) => before.push(order),
            None => before,
        }
    }
}

/// The mathematical model of the coordinator.
pub struct ManagerView {
    pub book: BookView,
    /// The order events that wait for their orders to be resolved.
    pub waiting: Seq<(u32, u64)>,
    pub settlement: SettlementState,
    /// The highest ledger position that an order event has told of.
    pub position: u64,
}

impl ManagerView {
    /// The coordinator at the start: an empty book, nothing waiting, nothing
    /// in flight.
    pub open spec fn initial() -> ManagerView {
        ManagerView {
            book: BookView::empty(),
            waiting: Seq::empty(),
            settlement: SettlementState::Idle,
            position: 0,
        }
    }

    /// After a batch of order events: the events wait to be resolved, and
    /// the position moves up to the highest that they tell of.
    pub open spec fn after_events(self, events: Seq<(u32, u64)>) -> ManagerView {
        ManagerView {
            waiting: self.waiting + events,
            position: highest(self.position, events),
            ..self
        }
    }

    /// The pair that is handed out for submission once the resolved orders
    /// are in the book: the pair that the book then offers, but only while
    /// nothing is in flight.
    pub open spec fn submission(self, resolved: Seq<Order>) -> Option<MatchedOrders> {
        if self.settlement == SettlementState::Idle {
            self.book.after_updates(resolved).matched()
        } else {
            None
        }
    }

    /// After the resolved orders: they are in the book whether or not a
    /// settlement is in flight, nothing waits any more, and a pair that was
    /// handed out is in flight.
    pub open spec fn after_resolved(self, resolved: Seq<Order>) -> ManagerView {
        ManagerView {
            book: self.book.after_updates(resolved),
            waiting: Seq::empty(),
            settlement: match self.submission(resolved) {
                Some(pair) => SettlementState::Submitting(
                    PendingSettlement { matched: pair, submitted_at: self.position },
                ),
                None => self.settlement,
            },
            position: self.position,
        }
    }

    /// After the outcome of a settlement call. A call that succeeded leaves
    /// the pair waiting for its confirmation. A call that failed ends the
    /// settlement and leaves the book alone: both orders rest on and may
    /// cross again. An outcome that no call is waiting for changes nothing.
    pub open spec fn after_outcome(self, accepted: bool) -> ManagerView {
        match self.settlement {
            SettlementState::Submitting(pending) => ManagerView {
                settlement: if accepted {
                    SettlementState::AwaitingConfirmation(pending)
                } else {
                    SettlementState::Idle
                },
                ..self
            },
            _ => self,
        }
    }

    /// Whether a confirmation is the one that the pair in flight waits for.
    pub open spec fn confirms(self, confirmed: MatchedOrders) -> bool {
        self.settlement.pending() matches Some(pending) && pending.matched == confirmed
    }

    /// After a confirmation from the ledger. One that names the pair in
    /// flight ends the settlement and takes both orders, which the trade used
    /// up, out of the book. Any other changes nothing, so that a confirmation
    /// seen twice counts once.
    pub open spec fn after_confirmation(self, confirmed: MatchedOrders) -> ManagerView {
        if self.confirms(confirmed) {
            ManagerView {
                book: self.book.without(confirmed.taker_order_id).without(
                    confirmed.maker_order_id,
                ),
                settlement: SettlementState::Idle,
                ..self
            }
        } else {
            self
        }
    }
}

/// The settlement coordinator.
#[derive(Debug)]
pub struct OrderManager {
    orderbook: OrderBook,
    waiting_orders: Vec<(u32, u64)>,
    settlement: SettlementState,
    position: u64,
}

impl View for OrderManager {
    type V = ManagerView;

    closed spec fn view(&self) -> ManagerView {
        ManagerView {
            book: self.orderbook@,
            waiting: self.waiting_orders@,
            settlement: self.settlement,
            position: self.position,
        }
    }
}

impl OrderManager {
    /// The invariant of the coordinator: its book is well formed and holds
    /// no id twice.
    pub open spec fn wf(&self) -> bool {
        self@.book.wf() && self@.book.ids_unique()
    }

    /// A coordinator with an empty book and nothing in flight.
    pub fn new() -> (manager: OrderManager)
        ensures
            manager@ == ManagerView::initial(),
            manager.wf(),
    {
        OrderManager {
            orderbook: OrderBook::new(),
            waiting_orders: Vec::new(),
            settlement: SettlementState::Idle,
            position: 0,
        }
    }

    /// Where the coordinator stands with its settlement.
    pub fn settlement(&self) -> (state: SettlementState)
        ensures
            state == self@.settlement,
    {
        self.settlement
    }

    /// The coordinator's book.
    pub fn orderbook(&self) -> (book: &OrderBook)
        ensures
            book@ == self@.book,
    {
        &self.orderbook
    }

    /// Takes a batch of order events, each an order id with the position at
    /// which the ledger reported it. The events join those that wait, and the
    /// answer names the orders to resolve: every waiting id once, in rising
    /// order.
    pub fn handle_orders(&mut self, orders: Vec<(u32, u64)>) -> (ids: Vec<u32>)
        ensures
            final(self)@ == old(self)@.after_events(orders@),
            unique_ids_of(ids@, final(self)@.waiting),
    {
        let mut i: usize = 0;
        proof {
            assert(orders@.take(0) =~= Seq::<(u32, u64)>::empty());
        }
        while i < orders.len()
            invariant
                0 <= i <= orders.len(),
                self@ == (ManagerView {
                    position: highest(old(self)@.position, orders@.take(i as int)),
                    ..old(self)@
                }),
            decreases orders.len() - i,
        {
            proof {
                assert(orders@.take(i + 1).drop_last() =~= orders@.take(i as int));
                assert(orders@.take(i + 1).last() == orders@[i as int]);
            }
            if orders[i].1 > self.position {
                self.position = orders[i].1;
            }
            i += 1;
        }
        proof {
            assert(orders@.take(i as int) =~= orders@);
        }
        let mut orders = orders;
        self.waiting_orders.append(&mut orders);
        unique_order_ids(&self.waiting_orders)
    }

    /// Takes what the metadata service answered for the waiting events, one
    /// answer for each order asked for: the order, or nothing where the
    /// lookup failed. A failed lookup is passed over for this round. Every
    /// order found is put into the book, where it replaces whatever rested
    /// under its id. Then, unless a settlement is in flight, the book is
    /// asked for its crossing pair; a pair that is found is in flight from
    /// here on and is handed out to be submitted.
    pub fn add_orders(&mut self, lookups: Vec<Option<Order>>) -> (submit: Option<MatchedOrders>)
        requires
            old(self).wf(),
        ensures
            submit == old(self)@.submission(found_in(lookups@)),
            final(self)@ == old(self)@.after_resolved(found_in(lookups@)),
            final(self).wf(),
    {
        let mut i: usize = 0;
        proof {
            assert(lookups@.take(0) =~= Seq::<Option<Order>>::empty());
        }
        while i < lookups.len()
            invariant
                0 <= i <= lookups.len(),
                self.wf(),
                self@ == (ManagerView {
                    book: old(self)@.book.after_updates(found_in(lookups@.take(i as int))),
                    ..old(self)@
                }),
            decreases lookups.len() - i,
        {
            proof {
                assert(lookups@.take(i + 1).drop_last() =~= lookups@.take(i as int));
                assert(lookups@.take(i + 1).last() == lookups@[i as int]);
                let found = found_in(lookups@.take(i as int));
                match lookups@[i as int] {
                    Some(order) => {
                        assert(found.push(order).drop_last() =~= found);
                    },
                    None => {},
                }
            }
            match lookups[i] {
                Some(order) => {
                    self.orderbook.update_order(order);
                },
                None => {},
            }
            i += 1;
        }
        proof {
            assert(lookups@.take(i as int) =~= lookups@);
        }
        self.waiting_orders.clear();
        match self.settlement {
            SettlementState::Idle => {
                let found = self.orderbook.find_matching_orders();
                match found {
                    Some(pair) => {
                        self.settlement = SettlementState::Submitting(
                            PendingSettlement { matched: pair, submitted_at: self.position },
                        );
                    },
                    None => {},
                }
                found
            },
            _ => None,
        }
    }

    /// Takes the outcome of the settlement call: `true` if the ledger took
    /// the transaction, `false` if the call failed or the transaction was
    /// reverted.
    pub fn settle_orders(&mut self, accepted: bool)
        ensures
            final(self)@ == old(self)@.after_outcome(accepted),
            old(self).wf() ==> final(self).wf(),
    {
        match self.settlement {
            SettlementState::Submitting(pending) => {
                if accepted {
                    self.settlement = SettlementState::AwaitingConfirmation(pending);
                } else {
                    self.settlement = SettlementState::Idle;
                }
            },
            _ => {},
        }
    }

    /// Takes the ledger's confirmation of a settled pair and tells whether it
    /// was the one in flight.
    pub fn match_orders(&mut self, orders: MatchedOrders) -> (confirmed: bool)
        requires
            old(self).wf(),
        ensures
            confirmed == old(self)@.confirms(orders),
            final(self)@ == old(self)@.after_confirmation(orders),
            final(self).wf(),
    {
        let pending = match self.settlement {
            SettlementState::Idle => None,
            SettlementState::Submitting(pending) => Some(pending),
            SettlementState::AwaitingConfirmation(pending) => Some(pending),
        };
        match pending {
            Some(pending) => {
                if pending.matched.taker_order_id == orders.taker_order_id
                    && pending.matched.maker_order_id == orders.maker_order_id {
                    self.orderbook.remove_order(orders.taker_order_id);
                    self.orderbook.remove_order(orders.maker_order_id);
                    self.settlement = SettlementState::Idle;
                    true
                } else {
                    false
                }
            },
            None => false,
        }
    }
}

/// Two lists of ids in strictly rising order that hold the same ids are the
/// same list: what `unique_ids_of` asks for is met by one list only.
pub proof fn lemma_rising_ids_determined(a: Seq<u32>, b: Seq<u32>)
    requires
        strictly_rising(a),
        strictly_rising(b),
        forall|id: u32| a.contains(id) <==> b.contains(id),
    ensures
        a == b,
    decreases a.len(),
{
    if a.len() == 0 {
        if b.len() > 0 {
            assert(b.contains(b[0]));
        }
        assert(a =~= b);
    } else {
        assert(a.contains(a[0]));
        let m = choose|m: int| 0 <= m < b.len() && b[m] == a[0];
        assert(b.contains(b[0]));
        let n = choose|n: int| 0 <= n < a.len() && a[n] == b[0];
        assert(a[0] == b[0]);
        let ta = a.drop_first();
        let tb = b.drop_first();
        assert forall|id: u32| ta.contains(id) <==> tb.contains(id) by {
            if ta.contains(id) {
                let k = choose|k: int| 0 <= k < ta.len() && ta[k] == id;
                assert(a[k + 1] == id);
                assert(a.contains(id));
                assert(a[0] < a[k + 1]);
                let w = choose|w: int| 0 <= w < b.len() && b[w] == id;
                assert(tb[w - 1] == id);
            }
            if tb.contains(id) {
                let k = choose|k: int| 0 <= k < tb.len() && tb[k] == id;
                assert(b[k + 1] == id);
                assert(b.contains(id));
                assert(b[0] < b[k + 1]);
                let w = choose|w: int| 0 <= w < a.len() && a[w] == id;
                assert(ta[w - 1] == id);
            }
        }
        assert forall|i: int, j: int| 0 <= i < j < ta.len() implies ta[i] < ta[j] by {
            assert(ta[i] == a[i + 1] && ta[j] == a[j + 1]);
        }
        assert forall|i: int, j: int| 0 <= i < j < tb.len() implies tb[i] < tb[j] by {
            assert(tb[i] == b[i + 1] && tb[j] == b[j + 1]);
        }
        lemma_rising_ids_determined(ta, tb);
        assert(a =~= seq![a[0]] + ta);
        assert(b =~= seq![b[0]] + tb);
    }
}

/// One input to the coordinator.
pub enum CoordinatorInput {
    /// A batch of order events.
    Events(Seq<(u32, u64)>),
    /// The orders resolved for the waiting events.
    Resolved(Seq<Order>),
    /// The outcome of the settlement call.
    Outcome(bool),
    /// A confirmation from the ledger.
    Confirmation(MatchedOrders),
}

/// The coordinator after one input.
pub open spec fn after_input(v: ManagerView, input: CoordinatorInput) -> ManagerView {
    match input {
        CoordinatorInput::Events(events) => v.after_events(events),
        CoordinatorInput::Resolved(resolved) => v.after_resolved(resolved),
        CoordinatorInput::Outcome(accepted) => v.after_outcome(accepted),
        CoordinatorInput::Confirmation(confirmed) => v.after_confirmation(confirmed),
    }
}

/// The pair that the coordinator hands out for submission on an input.
pub open spec fn submitted_on(v: ManagerView, input: CoordinatorInput) -> Option<MatchedOrders> {
    match input {
        CoordinatorInput::Resolved(resolved) => v.submission(resolved),
        _ => None,
    }
}

/// Whether an input ends the settlement in flight: the call failed, or the
/// ledger confirmed the pair.
pub open spec fn ends_settlement(v: ManagerView, input: CoordinatorInput) -> bool {
    match input {
        CoordinatorInput::Outcome(accepted) => v.settlement is Submitting && !accepted,
        CoordinatorInput::Confirmation(confirmed) => v.confirms(confirmed),
        _ => false,
    }
}

/// The coordinator after a sequence of inputs, the first one first.
pub open spec fn after_inputs(v: ManagerView, inputs: Seq<CoordinatorInput>) -> ManagerView
    decreases inputs.len(),
{
    if inputs.len() == 0 {
        v
    } else {
        after_input(after_inputs(v, inputs.drop_last()), inputs.last())
    }
}

/// While a settlement is in flight no input makes the coordinator hand out
/// another pair, and the settlement stays in flight, with the same pair,
/// unless the input ends it.
pub proof fn lemma_in_flight_blocks_submission(v: ManagerView, input: CoordinatorInput)
    requires
        v.settlement != SettlementState::Idle,
    ensures
        submitted_on(v, input) is None,
        ends_settlement(v, input) ==> after_input(v, input).settlement == SettlementState::Idle,
        !ends_settlement(v, input) ==> after_input(v, input).settlement.pending()
            == v.settlement.pending(),
{
}

/// A pair is handed out only while nothing is in flight, and it is in flight
/// from then on.
pub proof fn lemma_submission_takes_flight(v: ManagerView, input: CoordinatorInput)
    requires
        submitted_on(v, input) is Some,
    ensures
        v.settlement == SettlementState::Idle,
        after_input(v, input).settlement == SettlementState::Submitting(
            PendingSettlement { matched: submitted_on(v, input).unwrap(), submitted_at: v.position },
        ),
{
}

/// The coordinator after the first `k + 1` inputs is the coordinator after
/// the first `k`, taken one input further.
pub proof fn lemma_after_inputs_step(v: ManagerView, inputs: Seq<CoordinatorInput>, k: int)
    requires
        0 <= k < inputs.len(),
    ensures
        after_inputs(v, inputs.take(k + 1)) == after_input(
            after_inputs(v, inputs.take(k)),
            inputs[k],
        ),
{
    assert(inputs.take(k + 1).drop_last() =~= inputs.take(k));
    assert(inputs.take(k + 1).last() == inputs[k]);
}

/// A settlement that is in flight after input `i` is still in flight before
/// input `j` if none of the inputs between them ends it.
proof fn lemma_stays_in_flight(v: ManagerView, inputs: Seq<CoordinatorInput>, i: int, j: int)
    requires
        0 <= i < j <= inputs.len(),
        after_inputs(v, inputs.take(i + 1)).settlement != SettlementState::Idle,
        forall|k: int|
            i < k < j ==> !ends_settlement(
                after_inputs(v, inputs.take(k)),
                #[trigger] inputs[k],
            ),
    ensures
        after_inputs(v, inputs.take(j)).settlement != SettlementState::Idle,
    decreases j - i,
{
    if j > i + 1 {
        lemma_stays_in_flight(v, inputs, i, j - 1);
        let before = after_inputs(v, inputs.take(j - 1));
        lemma_after_inputs_step(v, inputs, j - 1);
        assert(!ends_settlement(before, inputs[j - 1]));
        lemma_in_flight_blocks_submission(before, inputs[j - 1]);
    }
}

/// At most one settlement in flight: whatever the inputs are, if the
/// coordinator hands out a pair on input `i` and another on a later input
/// `j`, then some input between the two ended the first settlement. Orders
/// that arrive and pairs that cross in the meantime cause no submission.
pub proof fn lemma_at_most_one_in_flight(
    v: ManagerView,
    inputs: Seq<CoordinatorInput>,
    i: int,
    j: int,
)
    requires
        0 <= i < j < inputs.len(),
        submitted_on(after_inputs(v, inputs.take(i)), inputs[i]) is Some,
        submitted_on(after_inputs(v, inputs.take(j)), inputs[j]) is Some,
    ensures
        exists|k: int|
            i < k < j && ends_settlement(after_inputs(v, inputs.take(k)), #[trigger] inputs[k]),
{
    if !(exists|k: int|
        i < k < j && ends_settlement(after_inputs(v, inputs.take(k)), #[trigger] inputs[k])) {
        lemma_submission_takes_flight(after_inputs(v, inputs.take(i)), inputs[i]);
        lemma_after_inputs_step(v, inputs, i);
        lemma_stays_in_flight(v, inputs, i, j);
        lemma_in_flight_blocks_submission(after_inputs(v, inputs.take(j)), inputs[j]);
    }
}

/// Whatever the inputs are, the coordinator's book stays well formed.
pub proof fn lemma_inputs_keep_book_wf(v: ManagerView, inputs: Seq<CoordinatorInput>)
    requires
        v.book.wf(),
    ensures
        after_inputs(v, inputs).book.wf(),
    decreases inputs.len(),
{
    if inputs.len() > 0 {
        lemma_inputs_keep_book_wf(v, inputs.drop_last());
        let before = after_inputs(v, inputs.drop_last());
        match inputs.last() {
            CoordinatorInput::Resolved(resolved) => {
                lemma_after_updates_wf(before.book, resolved);
            },
            CoordinatorInput::Confirmation(confirmed) => {
                lemma_without_wf(before.book, confirmed.taker_order_id);
                lemma_without_wf(
                    before.book.without(confirmed.taker_order_id),
                    confirmed.maker_order_id,
                );
            },
            _ => {},
        }
    }
}

/// The ids that a batch of order events names, each once, in rising order.
pub fn unique_order_ids(orders: &Vec<(u32, u64)>) -> (ids: Vec<u32>)
    ensures
        unique_ids_of(ids@, orders@),
{
    let mut ids: Vec<u32> = Vec::new();
    let mut i: usize = 0;
    while i < orders.len()
        invariant
            0 <= i <= orders.len(),
            strictly_rising(ids@),
            forall|id: u32| ids@.contains(id) <==> names(orders@.take(i as int), id),
        decreases orders.len() - i,
    {
        let id: u32 = orders[i].0;
        let ghost before = ids@;
        let ghost seen = orders@.take(i as int);
        let mut k: usize = 0;
        while k < ids.len() && ids[k] < id
            invariant
                0 <= k <= ids.len(),
                forall|m: int| 0 <= m < k ==> ids@[m] < id,
            decreases ids.len() - k,
        {
            k += 1;
        }
        let present = k < ids.len() && ids[k] == id;
        if !present {
            ids.insert(k, id);
        }
        proof {
            let now = orders@.take(i + 1);
            assert(now =~= seen.push(orders@[i as int]));
            assert forall|x: u32| ids@.contains(x) <==> names(now, x) by {
                if ids@.contains(x) {
                    let m = choose|m: int| 0 <= m < ids@.len() && ids@[m] == x;
                    if present {
                        assert(before.contains(x));
                    } else if m < k {
                        assert(before[m] == x);
                        assert(before.contains(x));
                    } else if m > k {
                        assert(before[m - 1] == x);
                        assert(before.contains(x));
                    }
                    if x != id {
                        assert(names(seen, x));
                        let w = choose|w: int| 0 <= w < seen.len() && (#[trigger] seen[w]).0 == x;
                        assert(now[w].0 == x);
                    } else {
                        assert(now[i as int].0 == x);
                    }
                }
                if names(now, x) {
                    let w = choose|w: int| 0 <= w < now.len() && (#[trigger] now[w]).0 == x;
                    if w < i {
                        assert(seen[w].0 == x);
                        assert(before.contains(x));
                        let m = choose|m: int| 0 <= m < before.len() && before[m] == x;
                        if present {
                        } else if m < k {
                            assert(ids@[m] == x);
                        } else {
                            assert(ids@[m + 1] == x);
                        }
                    } else {
                        assert(x == id);
                        assert(ids@[k as int] == x);
                    }
                }
            }
            if !present {
                assert forall|a: int, b: int| 0 <= a < b < ids@.len() implies ids@[a] < ids@[b] by {
                    let pa = if a < k { a } else { a - 1 };
                    let pb = if b < k { b } else { b - 1 };
                    if a == k {
                        assert(ids@[b] == before[pb]);
                        if pb > k {
                            assert(before[k as int] < before[pb]);
                        }
                    } else if b == k {
                        assert(ids@[a] == before[pa]);
                    } else {
                        assert(ids@[a] == before[pa] && ids@[b] == before[pb]);
                    }
                }
            }
        }
        i += 1;
    }
    proof {
        assert(orders@.take(i as int) =~= orders@);
    }
    ids
}

} // verus!
