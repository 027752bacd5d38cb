//! Orders and the priority rule that ranks them within one side of a book.

use vstd::prelude::*;

verus! {

/// The side of the book an order rests on.
#[derive(Clone, Copy, Debug, PartialEq, Eq, Structural)]
pub enum OrderSide {
    Buy,
    Sell,
}

/// A limit order. Everything but `volume` is fixed once the order rests in a
/// book; `volume` only shrinks, and an order whose volume reaches zero leaves
/// the book.
#[derive(Clone, Copy, Debug, PartialEq, Eq, Structural)]
pub struct Order {
    pub id: u32,
    pub contract_id: u32,
    pub volume: u32,
    pub price: u32,
    pub side: OrderSide,
}

impl Order {
    pub fn new(id: u32, contract_id: u32, volume: u32, price: u32, side: OrderSide) -> (order:
        Order)
        ensures
            order == (Order { id, contract_id, volume, price, side }),
    {
        Order { id, contract_id, volume, price, side }
    }

    /// Price-time priority within one side: a buy ranks ahead of another buy
    /// when it bids more, a sell ahead of another sell when it asks less, and
    /// at equal prices the order with the lower id (the earlier one) is ahead.
    /// The rule is only meaningful between two orders of the same side.
    pub open spec fn ranks_before(self, other: Order) -> bool {
        match self.side {
            OrderSide::Buy => self.price > other.price || (self.price == other.price && self.id
                < other.id),
            OrderSide::Sell => self.price < other.price || (self.price == other.price && self.id
                < other.id),
        }
    }

    /// Decides `ranks_before` for two orders of one side. Orders of different
    /// sides are never ranked against each other.
    pub fn precedes(&self, other: &Order) -> (ahead: bool)
        requires
            self.side == other.side,
        ensures
            ahead == self.ranks_before(*other),
    {
        match self.side {
            OrderSide::Buy => self.price > other.price || (self.price == other.price && self.id
                < other.id),
            OrderSide::Sell => self.price < other.price || (self.price == other.price && self.id
                < other.id),
        }
    }
}

/// No order ranks ahead of itself.
pub proof fn lemma_rank_irreflexive(a: Order)
    ensures
        !a.ranks_before(a),
{
}

/// Ranking is transitive among orders of one side.
pub proof fn lemma_rank_transitive(a: Order, b: Order, c: Order)
    requires
        a.side == b.side,
        b.side == c.side,
        a.ranks_before(b),
        b.ranks_before(c),
    ensures
        a.ranks_before(c),
{
}

/// Two orders of one side that differ in price or id are strictly ranked one
/// way or the other.
pub proof fn lemma_rank_total(a: Order, b: Order)
    requires
        a.side == b.side,
        a.price != b.price || a.id != b.id,
    ensures
        a.ranks_before(b) || b.ranks_before(a),
{
}

} // verus!
