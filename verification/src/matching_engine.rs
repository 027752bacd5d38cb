//! The engine around the matching worker: it takes orders in, tells the
//! worker when there is work, and shuts the worker down.

use vstd::prelude::*;
use crate::order_manager::{
    after_trade, ran_cycle, trade_of, ManagementView, MatchCycle, OrderManagement, TradeExecution,
    QUEUE_CAPACITY,
};
use crate::orderbook::order::{Order, OrderSide};
use crate::orderbook::MatchedOrders;

verus! {

/// What the worker does in one turn of its loop.
#[derive(Debug)]
pub enum WorkerStep {
    /// The engine is closed: the loop ends.
    Stopped,
    /// Orders had come in: a cycle was run.
    Matched(MatchCycle),
    /// Nothing had come in: the worker sleeps a little before it looks
    /// again.
    Idle,
}

/// How long the worker sleeps when it finds no work, in milliseconds.
pub const WORKER_IDLE_MS: u64 = 10;

/// The mathematical model of an engine.
pub struct EngineView {
    pub management: ManagementView,
    /// Whether the engine still takes work.
    pub live: bool,
    /// Whether an order has come in since the last cycle.
    pub new_order: bool,
}

/// The matching engine.
pub struct MatchingEngine {
    order_management: OrderManagement,
    live: bool,
    new_order: bool,
}

impl View for MatchingEngine {
    type V = EngineView;

    closed spec fn view(&self) -> EngineView {
        EngineView {
            management: self.order_management@,
            live: self.live,
            new_order: self.new_order,
        }
    }
}

impl MatchingEngine {
    /// The invariant of the engine: its worker's state is well formed.
    pub closed spec fn wf(&self) -> bool {
        self.order_management.wf()
    }

    /// A live engine whose worker has no books, an empty queue of
    /// `QUEUE_CAPACITY` and nothing counted yet.
    pub fn new() -> (engine: MatchingEngine)
        ensures
            engine@ == (EngineView {
                management: ManagementView {
                    books: Map::empty(),
                    waiting: Seq::empty(),
                    capacity: QUEUE_CAPACITY as nat,
                    next_order_id: 0,
                    total_volume: 0,
                    total_traded_volume: 0,
                },
                live: true,
                new_order: false,
            }),
            engine.wf(),
    {
        MatchingEngine { order_management: OrderManagement::new(), live: true, new_order: false }
    }

    /// Hands an order to the worker and, if the worker took it, marks that
    /// there is work. The order is taken on the worker's terms: it must have
    /// volume, the queue must have room, and an id must be left for it.
    pub fn add_order(&mut self, contract_id: u32, volume: i32, price: u32, side: OrderSide) -> (accepted:
        bool)
        requires
            old(self).wf(),
        ensures
            accepted == (volume >= 1 && old(self)@.management.waiting.len() < old(
                self,
            )@.management.capacity && old(self)@.management.next_order_id < u32::MAX),
            accepted ==> final(self)@ == (EngineView {
                management: ManagementView {
                    waiting: old(self)@.management.waiting.push(
                        Order {
                            id: old(self)@.management.next_order_id,
                            contract_id,
                            volume: volume as u32,
                            price,
                            side,
                        },
                    ),
                    next_order_id: (old(self)@.management.next_order_id + 1) as u32,
                    total_volume: (old(self)@.management.total_volume + volume) as u64,
                    ..old(self)@.management
                },
                new_order: true,
                ..old(self)@
            }),
            !accepted ==> final(self)@ == old(self)@,
            final(self).wf(),
    {
        let accepted = self.order_management.add_order(contract_id, volume, price, side);
        if accepted {
            self.new_order = true;
        }
        accepted
    }

    /// The worker's state.
    pub fn get_order_management(&self) -> (management: &OrderManagement)
        ensures
            management@ == self@.management,
            management.wf() == self.wf(),
    {
        &self.order_management
    }

    /// Applies a settled pair to the book of its instrument, as the worker
    /// does.
    pub fn execute_trade(&mut self, contract_id: u32, matched: MatchedOrders) -> (trade: Option<
        TradeExecution,
    >)
        requires
            old(self).wf(),
        ensures
            trade == trade_of(old(self)@.management.books, contract_id, matched),
            final(self)@ == (EngineView {
                management: after_trade(old(self)@.management, trade),
                ..old(self)@
            }),
            final(self).wf(),
    {
        self.order_management.execute_trade(contract_id, matched)
    }

    /// One turn of the worker's loop: it ends once the engine is closed, runs
    /// a cycle if an order has come in since the last one, and idles
    /// otherwise.
    pub fn worker_step(&mut self) -> (step: WorkerStep)
        requires
            old(self).wf(),
        ensures
            match step {
                WorkerStep::Stopped => !old(self)@.live && final(self)@ == old(self)@,
                WorkerStep::Idle => old(self)@.live && !old(self)@.new_order && final(self)@ == old(
                    self,
                )@,
                WorkerStep::Matched(cycle) => old(self)@.live && old(self)@.new_order && ran_cycle(
                    old(self)@.management,
                    cycle,
                    final(self)@.management,
                ) && final(self)@.live && !final(self)@.new_order,
            },
            final(self).wf(),
    {
        if !self.live {
            WorkerStep::Stopped
        } else if self.new_order {
            self.new_order = false;
            WorkerStep::Matched(self.order_management.match_orders())
        } else {
            WorkerStep::Idle
        }
    }

    /// Closes the engine. The first call stops the worker and runs one last
    /// cycle over what is still waiting; any later call does nothing.
    pub fn close(&mut self) -> (last: Option<MatchCycle>)
        requires
            old(self).wf(),
        ensures
            match last {
                Some(cycle) => old(self)@.live && ran_cycle(
                    old(self)@.management,
                    cycle,
                    final(self)@.management,
                ) && final(self)@.new_order == old(self)@.new_order,
                None => !old(self)@.live && final(self)@ == old(self)@,
            },
            !final(self)@.live,
            final(self).wf(),
    {
        if self.live {
            self.live = false;
            Some(self.order_management.match_orders())
        } else {
            None
        }
    }
}

} // verus!
