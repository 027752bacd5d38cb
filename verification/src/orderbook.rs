//! The per-instrument order book.
//!
//! A book keeps its buy orders and its sell orders apart, each side in
//! priority order with the best order first. Its mathematical model is a
//! [`BookView`]: two sequences of orders. Every operation of [`OrderBook`] is
//! stated as a function on that model.

pub mod laws;
pub mod order;

use vstd::prelude::*;
use crate::orderbook::laws::{
    lemma_swept_ids, lemma_with_order_ids, lemma_with_reduction_ids, lemma_without_ids,
};
use crate::orderbook::order::{Order, OrderSide};

verus! {

/// Two orders that cross, named by their roles: the maker is the one with the
/// lower id (the earlier one), the taker is the other.
#[derive(Clone, Copy, Debug, PartialEq, Eq, Structural)]
pub struct MatchedOrders {
    pub taker_order_id: u32,
    pub maker_order_id: u32,
}

/// The orders of one side are in priority order: no order ranks ahead of one
/// that stands before it.
pub open spec fn in_priority_order(s: Seq<Order>) -> bool {
    forall|i: int, j: int| 0 <= i < j < s.len() ==> !(#[trigger] s[j]).ranks_before(#[trigger] s[i])
}

/// What holds of each side of a book: all orders are of that side, none has
/// volume zero, and they stand in priority order.
pub open spec fn side_wf(s: Seq<Order>, side: OrderSide) -> bool {
    &&& in_priority_order(s)
    &&& forall|i: int| 0 <= i < s.len() ==> (#[trigger] s[i]).side == side && s[i].volume > 0
}

/// Where a new order goes in a side: behind every order it does not rank
/// ahead of, so that orders of equal rank keep their order of arrival.
pub open spec fn insert_index(s: Seq<Order>, o: Order) -> int
    decreases s.len(),
{
    if s.len() == 0 || o.ranks_before(s[0]) {
        0
    } else {
        1 + insert_index(s.drop_first(), o)
    }
}

/// `insert_index` is the first position whose order the new one ranks ahead
/// of, or the length of the side if there is none.
pub proof fn lemma_insert_index(s: Seq<Order>, o: Order, k: int)
    requires
        0 <= k <= s.len(),
        forall|j: int| 0 <= j < k ==> !o.ranks_before(#[trigger] s[j]),
        k < s.len() ==> o.ranks_before(s[k]),
    ensures
        insert_index(s, o) == k,
    decreases s.len(),
{
    if s.len() == 0 || o.ranks_before(s[0]) {
        if k > 0 {
            assert(!o.ranks_before(s[0]));
        }
    } else {
        let t = s.drop_first();
        assert forall|j: int| 0 <= j < k - 1 implies !o.ranks_before(#[trigger] t[j]) by {
            assert(t[j] == s[j + 1]);
        }
        if k < s.len() {
            assert(t[k - 1] == s[k]);
        }
        lemma_insert_index(t, o, k - 1);
    }
}

/// `insert_index` lies within the side, every order before it is not ranked
/// behind the new one, and the order at it, if any, is.
pub proof fn lemma_insert_index_bounds(s: Seq<Order>, o: Order)
    ensures
        0 <= insert_index(s, o) <= s.len(),
        forall|j: int| 0 <= j < insert_index(s, o) ==> !o.ranks_before(#[trigger] s[j]),
        insert_index(s, o) < s.len() ==> o.ranks_before(s[insert_index(s, o)]),
    decreases s.len(),
{
    if s.len() == 0 || o.ranks_before(s[0]) {
    } else {
        let t = s.drop_first();
        lemma_insert_index_bounds(t, o);
        let k = insert_index(t, o);
        assert forall|j: int| 0 <= j < k + 1 implies !o.ranks_before(#[trigger] s[j]) by {
            if j > 0 {
                assert(s[j] == t[j - 1]);
            }
        }
        if k < t.len() {
            assert(s[k + 1] == t[k]);
        }
    }
}

/// A side with a new order placed by priority.
pub open spec fn side_with(s: Seq<Order>, o: Order) -> Seq<Order> {
    s.insert(insert_index(s, o), o)
}

/// A side without the orders of one id.
pub open spec fn side_without(s: Seq<Order>, id: u32) -> Seq<Order> {
    s.filter(|o: Order| o.id != id)
}

/// No two orders of the side have the same id.
pub open spec fn distinct_ids(s: Seq<Order>) -> bool {
    forall|i: int, j: int| 0 <= i < j < s.len() ==> (#[trigger] s[i]).id != (#[trigger] s[j]).id
}

/// Whether a side holds an order of the given id.
pub open spec fn side_has(s: Seq<Order>, id: u32) -> bool {
    exists|i: int| 0 <= i < s.len() && (#[trigger] s[i]).id == id
}

/// A side with one more order at its end holds an id if the side held it or
/// the order has it.
pub proof fn lemma_side_has_push(s: Seq<Order>, o: Order, id: u32)
    ensures
        side_has(s.push(o), id) <==> (side_has(s, id) || o.id == id),
{
    let t = s.push(o);
    if side_has(s, id) {
        let k = choose|k: int| 0 <= k < s.len() && (#[trigger] s[k]).id == id;
        assert(t[k].id == id);
    }
    if side_has(t, id) && o.id != id {
        let k = choose|k: int| 0 <= k < t.len() && (#[trigger] t[k]).id == id;
        assert(s[k].id == id);
    }
    if o.id == id {
        assert(t[s.len() as int].id == id);
    }
}

/// The mathematical model of a book: each side as a sequence, best first.
pub struct BookView {
    pub buys: Seq<Order>,
    pub sells: Seq<Order>,
}

impl BookView {
    /// The book without orders.
    pub open spec fn empty() -> BookView {
        BookView { buys: Seq::empty(), sells: Seq::empty() }
    }

    /// Both sides are well formed.
    pub open spec fn wf(self) -> bool {
        &&& side_wf(self.buys, OrderSide::Buy)
        &&& side_wf(self.sells, OrderSide::Sell)
    }

    /// Whether an order of the given id rests on either side.
    pub open spec fn has(self, id: u32) -> bool {
        side_has(self.buys, id) || side_has(self.sells, id)
    }

    /// No id is held by two resting orders, neither on one side nor across
    /// the two: an order rests in at most one place.
    pub open spec fn ids_unique(self) -> bool {
        &&& distinct_ids(self.buys)
        &&& distinct_ids(self.sells)
        &&& forall|id: u32| !(side_has(self.buys, id) && side_has(self.sells, id))
    }

    /// The book after an order is offered: one without volume is turned away,
    /// any other takes its place by priority on its own side.
    pub open spec fn with_order(self, o: Order) -> BookView {
        if o.volume == 0 {
            self
        } else {
            match o.side {
                OrderSide::Buy => BookView { buys: side_with(self.buys, o), sells: self.sells },
                OrderSide::Sell => BookView { buys: self.buys, sells: side_with(self.sells, o) },
            }
        }
    }

    /// The book without the orders of one id, on both sides.
    pub open spec fn without(self, id: u32) -> BookView {
        BookView { buys: side_without(self.buys, id), sells: side_without(self.sells, id) }
    }

    /// The book after an order is created or replaced: whatever rested under
    /// its id leaves, and the order enters if it has volume.
    pub open spec fn with_update(self, o: Order) -> BookView {
        self.without(o.id).with_order(o)
    }

    /// The book after a sequence of orders is applied, the first one first,
    /// each replacing whatever rested under its id.
    pub open spec fn after_updates(self, orders: Seq<Order>) -> BookView
        decreases orders.len(),
    {
        if orders.len() == 0 {
            self
        } else {
            self.after_updates(orders.drop_last()).with_update(orders.last())
        }
    }

    /// The book after a fill of `delta` is taken off the orders of one id: an
    /// order that the fill uses up leaves, any other keeps what is left.
    pub open spec fn with_reduction(self, id: u32, delta: u32) -> BookView {
        BookView {
            buys: side_reduced(self.buys, id, delta),
            sells: side_reduced(self.sells, id, delta),
        }
    }

    /// The best buy and the best sell cross: both exist and the buy bids at
    /// least what the sell asks.
    pub open spec fn crosses(self) -> bool {
        &&& self.buys.len() > 0
        &&& self.sells.len() > 0
        &&& self.buys[0].price >= self.sells[0].price
    }

    /// The pair that the book offers for settlement, if its best orders cross.
    pub open spec fn matched(self) -> Option<MatchedOrders> {
        if self.crosses() {
            Some(pair_of(self.buys[0], self.sells[0]))
        } else {
            None
        }
    }

    /// The book after its crossing pairs have been swept off the top.
    pub open spec fn swept(self) -> BookView {
        let d = crossing_depth(self.buys, self.sells) as int;
        BookView { buys: self.buys.skip(d), sells: self.sells.skip(d) }
    }
}

/// The roles in a crossing pair: the order with the lower id is the maker.
pub open spec fn pair_of(buy: Order, sell: Order) -> MatchedOrders {
    if buy.id < sell.id {
        MatchedOrders { taker_order_id: sell.id, maker_order_id: buy.id }
    } else {
        MatchedOrders { taker_order_id: buy.id, maker_order_id: sell.id }
    }
}

/// An order after a fill of `delta`.
pub open spec fn filled(o: Order, delta: u32) -> Order {
    Order { volume: if o.volume > delta { (o.volume - delta) as u32 } else { 0 }, ..o }
}

/// A side after a fill of `delta` is taken off the orders of one id.
pub open spec fn side_reduced(s: Seq<Order>, id: u32, delta: u32) -> Seq<Order> {
    s.filter(|o: Order| !(o.id == id && o.volume <= delta)).map_values(
        |o: Order| if o.id == id { filled(o, delta) } else { o },
    )
}

/// How many pairs cross when the two sides are paired off from the top: the
/// first buy with the first sell, the second with the second, and so on, up
/// to the first pair whose buy bids less than its sell asks.
pub open spec fn crossing_depth(buys: Seq<Order>, sells: Seq<Order>) -> nat
    decreases buys.len(),
{
    if buys.len() > 0 && sells.len() > 0 && buys[0].price >= sells[0].price {
        1 + crossing_depth(buys.drop_first(), sells.drop_first())
    } else {
        0
    }
}

/// The first `d` pairs, each buy followed by its sell.
pub open spec fn paired_off(buys: Seq<Order>, sells: Seq<Order>, d: int) -> Seq<Order> {
    Seq::new((2 * d) as nat, |i: int| if i % 2 == 0 { buys[i / 2] } else { sells[i / 2] })
}

/// `crossing_depth` is within both sides, every pair before it crosses, and
/// the pair at it, if there is one, does not.
pub proof fn lemma_crossing_depth(buys: Seq<Order>, sells: Seq<Order>)
    ensures
        crossing_depth(buys, sells) <= buys.len(),
        crossing_depth(buys, sells) <= sells.len(),
        forall|i: int|
            0 <= i < crossing_depth(buys, sells) ==> (#[trigger] buys[i]).price >= sells[i].price,
        crossing_depth(buys, sells) < buys.len() && crossing_depth(buys, sells) < sells.len()
            ==> buys[crossing_depth(buys, sells) as int].price
            < sells[crossing_depth(buys, sells) as int].price,
    decreases buys.len(),
{
    if buys.len() > 0 && sells.len() > 0 && buys[0].price >= sells[0].price {
        let b = buys.drop_first();
        let s = sells.drop_first();
        lemma_crossing_depth(b, s);
        let d = crossing_depth(b, s) as int;
        assert forall|i: int| 0 <= i < d + 1 implies (#[trigger] buys[i]).price
            >= sells[i].price by {
            if i > 0 {
                assert(buys[i] == b[i - 1]);
                assert(sells[i] == s[i - 1]);
            }
        }
        if d < b.len() && d < s.len() {
            assert(buys[d + 1] == b[d]);
            assert(sells[d + 1] == s[d]);
        }
    }
}

/// Placing an order with volume on a well-formed side of its own kind keeps
/// the side well formed.
pub proof fn lemma_side_with_wf(s: Seq<Order>, o: Order)
    requires
        side_wf(s, o.side),
        o.volume > 0,
    ensures
        side_wf(side_with(s, o), o.side),
{
    lemma_insert_index_bounds(s, o);
    let k = insert_index(s, o);
    let t = side_with(s, o);
    assert forall|i: int, j: int| 0 <= i < j < t.len() implies !(#[trigger] t[j]).ranks_before(
        #[trigger] t[i],
    ) by {
        if j == k {
            // t[j] is the new order, t[i] an old one before it
            assert(t[i] == s[i]);
        } else if i == k {
            // t[i] is the new order, t[j] an old order at or after k
            assert(t[j] == s[j - 1]);
            assert(s[j - 1].side == o.side);
            if j - 1 > k {
                assert(!s[j - 1].ranks_before(s[k]));
            }
        } else {
            let a = if i < k { i } else { i - 1 };
            let b = if j < k { j } else { j - 1 };
            assert(t[i] == s[a]);
            assert(t[j] == s[b]);
        }
    }
    assert forall|i: int| 0 <= i < t.len() implies (#[trigger] t[i]).side == o.side && t[i].volume
        > 0 by {
        if i < k {
            assert(t[i] == s[i]);
        } else if i > k {
            assert(t[i] == s[i - 1]);
        }
    }
}

/// Leaving orders out of a well-formed side keeps it well formed.
pub proof fn lemma_filter_keeps_side_wf(
    s: Seq<Order>,
    side: OrderSide,
    keep: spec_fn(Order) -> bool,
)
    requires
        side_wf(s, side),
    ensures
        side_wf(s.filter(keep), side),
    decreases s.len(),
{
    reveal(Seq::filter);
    if s.len() > 0 {
        let r = s.drop_last();
        assert forall|i: int, j: int| 0 <= i < j < r.len() implies !(#[trigger] r[j]).ranks_before(
            #[trigger] r[i],
        ) by {
            assert(r[i] == s[i] && r[j] == s[j]);
        }
        assert forall|i: int| 0 <= i < r.len() implies (#[trigger] r[i]).side == side
            && r[i].volume > 0 by {
            assert(r[i] == s[i]);
        }
        lemma_filter_keeps_side_wf(r, side, keep);
        let fr = r.filter(keep);
        if keep(s.last()) {
            let t = fr.push(s.last());
            assert forall|i: int, j: int| 0 <= i < j < t.len() implies !(#[trigger] t[j]).ranks_before(
                #[trigger] t[i],
            ) by {
                if j == t.len() - 1 {
                    assert(fr.contains(fr[i]));
                    r.lemma_filter_contains_rev(keep, fr[i]);
                    let m = choose|m: int| 0 <= m < r.len() && r[m] == fr[i];
                    assert(s[m] == r[m]);
                    assert(!s[s.len() - 1].ranks_before(s[m]));
                } else {
                    assert(t[i] == fr[i] && t[j] == fr[j]);
                }
            }
            assert forall|i: int| 0 <= i < t.len() implies (#[trigger] t[i]).side == side
                && t[i].volume > 0 by {
                if i < fr.len() {
                    assert(t[i] == fr[i]);
                } else {
                    assert(t[i] == s[s.len() - 1]);
                }
            }
        }
    }
}

/// After the orders of one id have left a side, the side holds none of that
/// id and still holds every other id it held before.
pub proof fn lemma_side_without_has(s: Seq<Order>, id: u32, other: u32)
    ensures
        !side_has(side_without(s, id), id),
        other != id ==> (side_has(side_without(s, id), other) <==> side_has(s, other)),
{
    let keep = |o: Order| o.id != id;
    let t = s.filter(keep);
    assert(t == side_without(s, id));
    if side_has(t, id) {
        let i = choose|i: int| 0 <= i < t.len() && (#[trigger] t[i]).id == id;
        s.lemma_filter_pred(keep, i);
    }
    if other != id {
        if side_has(t, other) {
            let i = choose|i: int| 0 <= i < t.len() && (#[trigger] t[i]).id == other;
            assert(t.contains(t[i]));
            s.lemma_filter_contains_rev(keep, t[i]);
            let m = choose|m: int| 0 <= m < s.len() && s[m] == t[i];
            assert(s[m].id == other);
        }
        if side_has(s, other) {
            let i = choose|i: int| 0 <= i < s.len() && (#[trigger] s[i]).id == other;
            s.lemma_filter_contains(keep, i);
            let m = choose|m: int| 0 <= m < t.len() && t[m] == s[i];
            assert(t[m].id == other);
        }
    }
}

/// Taking a fill off the orders of one id keeps a side well formed.
pub proof fn lemma_side_reduced_wf(s: Seq<Order>, side: OrderSide, id: u32, delta: u32)
    requires
        side_wf(s, side),
    ensures
        side_wf(side_reduced(s, id, delta), side),
{
    let keep = |o: Order| !(o.id == id && o.volume <= delta);
    let cut = |o: Order| if o.id == id { filled(o, delta) } else { o };
    let f = s.filter(keep);
    let t = f.map_values(cut);
    assert(t == side_reduced(s, id, delta));
    lemma_filter_keeps_side_wf(s, side, keep);
    assert forall|i: int| 0 <= i < t.len() implies (#[trigger] t[i]).side == side && t[i].volume
        > 0 && t[i].price == f[i].price && t[i].id == f[i].id by {
        s.lemma_filter_pred(keep, i);
        assert(f[i].side == side);
    }
    assert forall|i: int, j: int| 0 <= i < j < t.len() implies !(#[trigger] t[j]).ranks_before(
        #[trigger] t[i],
    ) by {
        assert(!f[j].ranks_before(f[i]));
        assert(t[i].side == side && t[j].side == side);
        assert(f[i].side == side && f[j].side == side);
    }
}

/// What is left of a well-formed side below its first `n` orders is well
/// formed.
pub proof fn lemma_skip_keeps_side_wf(s: Seq<Order>, side: OrderSide, n: int)
    requires
        side_wf(s, side),
        0 <= n <= s.len(),
    ensures
        side_wf(s.skip(n), side),
{
    let t = s.skip(n);
    assert forall|i: int, j: int| 0 <= i < j < t.len() implies !(#[trigger] t[j]).ranks_before(
        #[trigger] t[i],
    ) by {
        assert(t[i] == s[i + n] && t[j] == s[j + n]);
    }
    assert forall|i: int| 0 <= i < t.len() implies (#[trigger] t[i]).side == side && t[i].volume
        > 0 by {
        assert(t[i] == s[i + n]);
    }
}

/// A price-time-priority order book for one instrument.
#[derive(Clone, Debug)]
pub struct OrderBook {
    buy_orders: Vec<Order>,
    sell_orders: Vec<Order>,
}

impl View for OrderBook {
    type V = BookView;

    closed spec fn view(&self) -> BookView {
        BookView { buys: self.buy_orders@, sells: self.sell_orders@ }
    }
}

impl OrderBook {
    /// The invariant of a book: its model is well formed.
    pub open spec fn wf(&self) -> bool {
        self@.wf()
    }

    /// A book without orders.
    pub fn new() -> (book: OrderBook)
        ensures
            book@ == BookView::empty(),
            book.wf(),
            book@.ids_unique(),
    {
        OrderBook { buy_orders: Vec::new(), sell_orders: Vec::new() }
    }

    /// Offers an order to the book. An order without volume is turned away and
    /// the book stays as it was; any other order is placed on its side by
    /// priority.
    pub fn add_order(&mut self, order: Order) -> (accepted: bool)
        requires
            old(self).wf(),
        ensures
            accepted == (order.volume != 0),
            final(self)@ == old(self)@.with_order(order),
            final(self).wf(),
            old(self)@.ids_unique() && !old(self)@.has(order.id) ==> final(self)@.ids_unique(),
    {
        if order.volume == 0 {
            return false;
        }
        proof {
            lemma_with_order_ids(self@, order);
            match order.side {
                OrderSide::Buy => lemma_side_with_wf(self.buy_orders@, order),
                OrderSide::Sell => lemma_side_with_wf(self.sell_orders@, order),
            }
        }
        match order.side {
            OrderSide::Buy => {
                place(&mut self.buy_orders, order);
            },
            OrderSide::Sell => {
                place(&mut self.sell_orders, order);
            },
        }
        true
    }

    /// Takes every order of the given id out of the book, whichever side it
    /// rests on, and tells whether there was one.
    pub fn remove_order(&mut self, id: u32) -> (found: bool)
        requires
            old(self).wf(),
        ensures
            found == old(self)@.has(id),
            final(self)@ == old(self)@.without(id),
            final(self).wf(),
            !final(self)@.has(id),
            old(self)@.ids_unique() ==> final(self)@.ids_unique(),
    {
        proof {
            lemma_without_ids(self@, id);
            lemma_filter_keeps_side_wf(self.buy_orders@, OrderSide::Buy, |o: Order| o.id != id);
            lemma_filter_keeps_side_wf(self.sell_orders@, OrderSide::Sell, |o: Order| o.id != id);
        }
        let found_buy = take_out(&mut self.buy_orders, id);
        let found_sell = take_out(&mut self.sell_orders, id);
        found_buy || found_sell
    }

    /// Creates or replaces an order: whatever rested under its id leaves the
    /// book, and the order enters if it has volume. An unknown id is no error,
    /// so the answer is always `true`.
    pub fn update_order(&mut self, order: Order) -> (done: bool)
        requires
            old(self).wf(),
        ensures
            done,
            final(self)@ == old(self)@.with_update(order),
            final(self).wf(),
            old(self)@.ids_unique() ==> final(self)@.ids_unique(),
    {
        self.remove_order(order.id);
        if order.volume > 0 {
            self.add_order(order);
        }
        true
    }

    /// The buy orders, the best first.
    pub fn buy_orders(&self) -> (orders: &Vec<Order>)
        ensures
            orders@ == self@.buys,
    {
        &self.buy_orders
    }

    /// The sell orders, the best first.
    pub fn sell_orders(&self) -> (orders: &Vec<Order>)
        ensures
            orders@ == self@.sells,
    {
        &self.sell_orders
    }

    /// The buy order with the highest priority, if there is a buy order.
    pub fn best_buy(&self) -> (best: Option<&Order>)
        ensures
            best == if self@.buys.len() > 0 {
                Some(&self@.buys[0])
            } else {
                None
            },
    {
        if self.buy_orders.len() > 0 {
            Some(&self.buy_orders[0])
        } else {
            None
        }
    }

    /// The sell order with the highest priority, if there is a sell order.
    pub fn best_sell(&self) -> (best: Option<&Order>)
        ensures
            best == if self@.sells.len() > 0 {
                Some(&self@.sells[0])
            } else {
                None
            },
    {
        if self.sell_orders.len() > 0 {
            Some(&self.sell_orders[0])
        } else {
            None
        }
    }

    /// The best buy and the best sell, if they cross. The book is left as it
    /// is.
    pub fn best_crossing_pair(&self) -> (pair: Option<(&Order, &Order)>)
        ensures
            pair == if self@.crosses() {
                Some((&self@.buys[0], &self@.sells[0]))
            } else {
                None
            },
    {
        if self.buy_orders.len() > 0 && self.sell_orders.len() > 0 {
            let buy = &self.buy_orders[0];
            let sell = &self.sell_orders[0];
            if buy.price >= sell.price {
                return Some((buy, sell));
            }
        }
        None
    }

    /// Names the pair to settle, if the best orders cross: the order with the
    /// lower id as maker, the other as taker. No volume changes here; that is
    /// a step of its own once the settlement is known.
    pub fn find_matching_orders(&self) -> (matched: Option<MatchedOrders>)
        ensures
            matched == self@.matched(),
    {
        match self.best_crossing_pair() {
            Some((buy, sell)) => {
                if buy.id < sell.id {
                    Some(MatchedOrders { taker_order_id: sell.id, maker_order_id: buy.id })
                } else {
                    Some(MatchedOrders { taker_order_id: buy.id, maker_order_id: sell.id })
                }
            },
            None => None,
        }
    }

    /// Takes a fill of `delta` off the orders of the given id. An order whose
    /// volume the fill reaches or exceeds leaves the book; any other stays in
    /// its place with the rest of its volume. Tells whether the id rested in
    /// the book.
    pub fn modify_order_volume(&mut self, id: u32, delta: u32) -> (found: bool)
        requires
            old(self).wf(),
        ensures
            found == old(self)@.has(id),
            final(self)@ == old(self)@.with_reduction(id, delta),
            final(self).wf(),
            old(self)@.ids_unique() ==> final(self)@.ids_unique(),
    {
        proof {
            lemma_with_reduction_ids(self@, id, delta);
            lemma_side_reduced_wf(self.buy_orders@, OrderSide::Buy, id, delta);
            lemma_side_reduced_wf(self.sell_orders@, OrderSide::Sell, id, delta);
        }
        let found_buy = fill(&mut self.buy_orders, id, delta);
        let found_sell = fill(&mut self.sell_orders, id, delta);
        found_buy || found_sell
    }

    /// Sweeps the crossing pairs off the top of the book: as long as the best
    /// buy bids at least what the best sell asks, both leave the book whole.
    /// The orders come back pair by pair, each buy followed by its sell.
    pub fn match_orders(&mut self) -> (matches: Vec<Order>)
        requires
            old(self).wf(),
        ensures
            matches@ == paired_off(
                old(self)@.buys,
                old(self)@.sells,
                crossing_depth(old(self)@.buys, old(self)@.sells) as int,
            ),
            final(self)@ == old(self)@.swept(),
            final(self).wf(),
            old(self)@.ids_unique() ==> final(self)@.ids_unique(),
    {
        proof {
            lemma_swept_ids(self@);
        }
        let ghost buys = self.buy_orders@;
        let ghost sells = self.sell_orders@;
        let mut matches: Vec<Order> = Vec::new();
        let mut n: usize = 0;
        proof {
            assert(buys.len() == self.buy_orders.len());
            assert(buys.skip(0) =~= buys);
            assert(sells.skip(0) =~= sells);
            assert(matches@ =~= paired_off(buys, sells, 0));
        }
        while self.buy_orders.len() > 0 && self.sell_orders.len() > 0
            && self.buy_orders[0].price >= self.sell_orders[0].price
            invariant
                n <= buys.len() <= usize::MAX,
                n <= sells.len(),
                self.buy_orders@ == buys.skip(n as int),
                self.sell_orders@ == sells.skip(n as int),
                matches@ == paired_off(buys, sells, n as int),
                crossing_depth(buys, sells) == n + crossing_depth(
                    self.buy_orders@,
                    self.sell_orders@,
                ),
            decreases self.buy_orders.len(),
        {
            let ghost before = matches@;
            let buy = self.buy_orders.remove(0);
            let sell = self.sell_orders.remove(0);
            matches.push(buy);
            matches.push(sell);
            proof {
                assert(buys.skip(n as int).drop_first() =~= buys.skip(n + 1));
                assert(sells.skip(n as int).drop_first() =~= sells.skip(n + 1));
                assert(buys.skip(n as int).remove(0) =~= buys.skip(n + 1));
                assert(sells.skip(n as int).remove(0) =~= sells.skip(n + 1));
                assert(buy == buys[n as int]);
                assert(sell == sells[n as int]);
                let after = paired_off(buys, sells, n + 1);
                assert(matches@.len() == after.len());
                assert forall|i: int| 0 <= i < after.len() implies matches@[i] == after[i] by {
                    if i < 2 * n {
                        assert(matches@[i] == before[i]);
                    }
                }
                assert(matches@ =~= after);
            }
            n += 1;
        }
        proof {
            lemma_skip_keeps_side_wf(buys, OrderSide::Buy, n as int);
            lemma_skip_keeps_side_wf(sells, OrderSide::Sell, n as int);
        }
        matches
    }
}

/// Takes a fill off the orders of one id in a side.
fn fill(side: &mut Vec<Order>, id: u32, delta: u32) -> (found: bool)
    ensures
        final(side)@ == side_reduced(old(side)@, id, delta),
        found == side_has(old(side)@, id),
{
    let ghost keep = |o: Order| !(o.id == id && o.volume <= delta);
    let ghost cut = |o: Order| if o.id == id { filled(o, delta) } else { o };
    let mut kept: Vec<Order> = Vec::new();
    let mut found = false;
    let mut i: usize = 0;
    proof {
        reveal(Seq::filter);
        assert(side@.take(0).filter(keep).map_values(cut) =~= Seq::<Order>::empty());
    }
    while i < side.len()
        invariant
            0 <= i <= side.len(),
            side@ == old(side)@,
            keep == |o: Order| !(o.id == id && o.volume <= delta),
            cut == |o: Order| if o.id == id { filled(o, delta) } else { o },
            kept@ == side@.take(i as int).filter(keep).map_values(cut),
            found == side_has(side@.take(i as int), id),
        decreases side.len() - i,
    {
        let order = side[i];
        proof {
            let before = side@.take(i as int);
            let after = side@.take(i + 1);
            assert(after =~= before.push(order));
            before.lemma_filter_push(order, keep);
            if keep(order) {
                assert(before.filter(keep).push(order).map_values(cut) =~= before.filter(
                    keep,
                ).map_values(cut).push(cut(order)));
            }
            lemma_side_has_push(before, order, id);
        }
        if order.id == id {
            found = true;
            if order.volume > delta {
                kept.push(
                    Order {
                        id: order.id,
                        contract_id: order.contract_id,
                        volume: order.volume - delta,
                        price: order.price,
                        side: order.side,
                    },
                );
            }
        } else {
            kept.push(order);
        }
        i += 1;
    }
    proof {
        assert(side@.take(i as int) =~= side@);
    }
    *side = kept;
    found
}

/// Takes the orders of one id out of a side.
fn take_out(side: &mut Vec<Order>, id: u32) -> (found: bool)
    ensures
        final(side)@ == side_without(old(side)@, id),
        found == side_has(old(side)@, id),
{
    let ghost keep = |o: Order| o.id != id;
    let mut kept: Vec<Order> = Vec::new();
    let mut found = false;
    let mut i: usize = 0;
    proof {
        reveal(Seq::filter);
        assert(side@.take(0).filter(keep) =~= Seq::<Order>::empty());
    }
    while i < side.len()
        invariant
            0 <= i <= side.len(),
            side@ == old(side)@,
            keep == |o: Order| o.id != id,
            kept@ == side@.take(i as int).filter(keep),
            found == side_has(side@.take(i as int), id),
        decreases side.len() - i,
    {
        let order = side[i];
        proof {
            let before = side@.take(i as int);
            let after = side@.take(i + 1);
            assert(after =~= before.push(order));
            before.lemma_filter_push(order, keep);
            lemma_side_has_push(before, order, id);
        }
        if order.id == id {
            found = true;
        } else {
            kept.push(order);
        }
        i += 1;
    }
    proof {
        assert(side@.take(i as int) =~= side@);
    }
    *side = kept;
    found
}

/// Puts an order into a side at its place by priority.
fn place(side: &mut Vec<Order>, order: Order)
    requires
        side_wf(old(side)@, order.side),
    ensures
        final(side)@ == side_with(old(side)@, order),
{
    let mut i: usize = 0;
    while i < side.len() && !order.precedes(&side[i])
        invariant
            0 <= i <= side.len(),
            side@ == old(side)@,
            side_wf(side@, order.side),
            forall|j: int| 0 <= j < i ==> !order.ranks_before(#[trigger] side@[j]),
        decreases side.len() - i,
    {
        i += 1;
    }
    proof {
        lemma_insert_index(side@, order, i as int);
    }
    side.insert(i, order);
}

} // verus!
