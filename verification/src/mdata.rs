//! Market data: trades and book snapshots, published to whoever subscribed.

use vstd::prelude::*;
use crate::order_manager::TradeExecution;
use crate::orderbook::OrderBook;

verus! {

/// A trade as the market sees it.
#[derive(Clone, Copy, Debug, PartialEq, Eq, Structural)]
pub struct TradeData {
    pub contract_id: u32,
    pub order_id: u32,
    pub volume: u32,
    pub price: u32,
}

/// What a subscriber of market data receives.
pub trait MarketDataDelegate {
    /// A trade was executed.
    fn on_public_trade(&self, trade_data: TradeData);

    /// The book of an instrument has changed.
    fn on_order_book(&self, contract_id: u32, order_book: &OrderBook);
}

/// What the owner of an order receives.
pub trait OrderDelegate {
    /// A trade took `trade_volume` off the owner's order.
    fn on_order_execution(&self, contract_id: u32, order_id: u32, trade_volume: u32, price: u32);
}

/// The list of subscribers.
pub struct MarketData<D: MarketDataDelegate> {
    traders: Vec<D>,
}

impl<D: MarketDataDelegate> MarketData<D> {
    /// The subscribers, in the order in which they subscribed.
    pub closed spec fn subscribers(&self) -> Seq<D> {
        self.traders@
    }

    /// Market data without subscribers.
    pub fn new() -> (market_data: Self)
        ensures
            market_data.subscribers() == Seq::<D>::empty(),
    {
        MarketData { traders: Vec::new() }
    }

    /// Adds a subscriber behind those that are there.
    pub fn subscribe(&mut self, subscriber: D)
        ensures
            final(self).subscribers() == old(self).subscribers().push(subscriber),
    {
        self.traders.push(subscriber);
    }

    /// Tells every subscriber of a trade, in the order of subscription.
    pub fn publish_public_trade(&self, contract_id: u32, order_id: u32, volume: u32, price: u32) {
        let trade_data = TradeData { contract_id, order_id, volume, price };
        let mut i: usize = 0;
        while i < self.traders.len()
            invariant
                0 <= i <= self.traders.len(),
            decreases self.traders.len() - i,
        {
            self.traders[i].on_public_trade(trade_data);
            i += 1;
        }
    }

    /// Tells every subscriber of an executed trade, under the id of its buy
    /// order.
    pub fn publish_execution(&self, trade: &TradeExecution) {
        self.publish_public_trade(trade.contract_id, trade.buy_order_id, trade.volume, trade.price);
    }

    /// Shows every subscriber the book of an instrument, in the order of
    /// subscription.
    pub fn publish_order_book(&self, contract_id: u32, order_book: &OrderBook) {
        let mut i: usize = 0;
        while i < self.traders.len()
            invariant
                0 <= i <= self.traders.len(),
            decreases self.traders.len() - i,
        {
            self.traders[i].on_order_book(contract_id, order_book);
            i += 1;
        }
    }
}

/// Tells the owners of the two orders of a trade what was taken off their
/// orders: first the buyer, then the seller, each under the id of their own
/// order, both with the volume and the price of the trade.
pub fn notify_owners<B: OrderDelegate, S: OrderDelegate>(
    trade: &TradeExecution,
    buyer: &B,
    seller: &S,
) {
    buyer.on_order_execution(trade.contract_id, trade.buy_order_id, trade.volume, trade.price);
    seller.on_order_execution(trade.contract_id, trade.sell_order_id, trade.volume, trade.price);
}

} // verus!
