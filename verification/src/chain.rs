//! The ledger side of the engine: the events that the order-book contract
//! emits, the pipeline that reads them, and the plain data exchanged with
//! the metadata service and the settlement call.

pub mod listener;
pub mod order;

use vstd::prelude::*;

verus! {

/// An event of the order-book contract, with the block that reported it.
#[derive(Clone, Copy, Debug, PartialEq, Eq, Structural)]
pub enum ContractEvent {
    /// An order was placed or filled: its state on the ledger has changed.
    OrderUpdated(u32, u64),
    /// A taker and a maker were settled against each other.
    OrdersMatched(u32, u32, u64),
}

} // verus!
