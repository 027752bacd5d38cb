//! What holds of every book, whatever was done to it.

use vstd::prelude::*;
use crate::orderbook::order::{Order, OrderSide};
use crate::orderbook::{
    crossing_depth, distinct_ids, filled, insert_index, lemma_crossing_depth, lemma_filter_keeps_side_wf, lemma_insert_index,
    lemma_insert_index_bounds, lemma_side_reduced_wf, lemma_side_with_wf, lemma_side_without_has,
    lemma_skip_keeps_side_wf, side_has, side_reduced, side_wf, side_with, side_without, BookView,
};

verus! {

/// One change to a book.
pub enum BookOp {
    Add(Order),
    Remove(u32),
    Update(Order),
    ModifyVolume(u32, u32),
    Sweep,
}

/// The book after one change.
pub open spec fn after_op(book: BookView, op: BookOp) -> BookView {
    match op {
        BookOp::Add(o) => book.with_order(o),
        BookOp::Remove(id) => book.without(id),
        BookOp::Update(o) => book.with_update(o),
        BookOp::ModifyVolume(id, delta) => book.with_reduction(id, delta),
        BookOp::Sweep => book.swept(),
    }
}

/// The book that a sequence of changes makes of the empty book.
pub open spec fn after_ops(ops: Seq<BookOp>) -> BookView
    decreases ops.len(),
{
    if ops.len() == 0 {
        BookView::empty()
    } else {
        after_op(after_ops(ops.drop_last()), ops.last())
    }
}

/// The book that a sequence of offered orders makes of the empty book.
pub open spec fn after_adds(orders: Seq<Order>) -> BookView
    decreases orders.len(),
{
    if orders.len() == 0 {
        BookView::empty()
    } else {
        after_adds(orders.drop_last()).with_order(orders.last())
    }
}

/// Whether an order rests in a side.
pub open spec fn side_rests(s: Seq<Order>, o: Order) -> bool {
    exists|i: int| 0 <= i < s.len() && #[trigger] s[i] == o
}

/// Whether an order rests in the book, on the side it names.
pub open spec fn rests(book: BookView, o: Order) -> bool {
    match o.side {
        OrderSide::Buy => side_rests(book.buys, o),
        OrderSide::Sell => side_rests(book.sells, o),
    }
}

/// Every change keeps a well-formed book well formed.
pub proof fn lemma_op_keeps_wf(book: BookView, op: BookOp)
    requires
        book.wf(),
    ensures
        after_op(book, op).wf(),
{
    match op {
        BookOp::Add(o) => {
            lemma_with_order_wf(book, o);
        },
        BookOp::Remove(id) => {
            lemma_without_wf(book, id);
        },
        BookOp::Update(o) => {
            lemma_without_wf(book, o.id);
            lemma_with_order_wf(book.without(o.id), o);
        },
        BookOp::ModifyVolume(id, delta) => {
            lemma_side_reduced_wf(book.buys, OrderSide::Buy, id, delta);
            lemma_side_reduced_wf(book.sells, OrderSide::Sell, id, delta);
        },
        BookOp::Sweep => {
            lemma_crossing_depth(book.buys, book.sells);
            let d = crossing_depth(book.buys, book.sells) as int;
            lemma_skip_keeps_side_wf(book.buys, OrderSide::Buy, d);
            lemma_skip_keeps_side_wf(book.sells, OrderSide::Sell, d);
        },
    }
}

/// Offering an order keeps a well-formed book well formed.
pub proof fn lemma_with_order_wf(book: BookView, o: Order)
    requires
        book.wf(),
    ensures
        book.with_order(o).wf(),
{
    if o.volume > 0 {
        match o.side {
            OrderSide::Buy => lemma_side_with_wf(book.buys, o),
            OrderSide::Sell => lemma_side_with_wf(book.sells, o),
        }
    }
}

/// Taking an id out keeps a well-formed book well formed.
pub proof fn lemma_without_wf(book: BookView, id: u32)
    requires
        book.wf(),
    ensures
        book.without(id).wf(),
{
    lemma_filter_keeps_side_wf(book.buys, OrderSide::Buy, |o: Order| o.id != id);
    lemma_filter_keeps_side_wf(book.sells, OrderSide::Sell, |o: Order| o.id != id);
}

/// No zero-volume persistence: whatever sequence of offers, removals,
/// updates, fills and sweeps a book has seen since it was empty, it is well
/// formed, and so no order resting in it has volume zero.
pub proof fn lemma_no_zero_volume(ops: Seq<BookOp>)
    ensures
        after_ops(ops).wf(),
        forall|i: int| 0 <= i < after_ops(ops).buys.len() ==> (#[trigger] after_ops(ops).buys[i]).volume > 0,
        forall|i: int| 0 <= i < after_ops(ops).sells.len() ==> (#[trigger] after_ops(ops).sells[i]).volume > 0,
    decreases ops.len(),
{
    if ops.len() > 0 {
        lemma_no_zero_volume(ops.drop_last());
        lemma_op_keeps_wf(after_ops(ops.drop_last()), ops.last());
    }
}

/// In a well-formed side the first order is the best: no order of the side
/// bids more (asks less, for sells), and none at the same price has a lower
/// id.
pub proof fn lemma_head_is_best(s: Seq<Order>, side: OrderSide, i: int)
    requires
        side_wf(s, side),
        0 <= i < s.len(),
    ensures
        !s[i].ranks_before(s[0]),
        side == OrderSide::Buy ==> s[0].price >= s[i].price,
        side == OrderSide::Sell ==> s[0].price <= s[i].price,
        s[0].price == s[i].price ==> s[0].id <= s[i].id,
{
    if i > 0 {
        assert(!s[i].ranks_before(s[0]));
    }
    assert(s[i].side == side);
    assert(s[0].side == side);
}

/// A side with a new order holds that order and every order it held before,
/// and nothing else.
pub proof fn lemma_side_with_rests(s: Seq<Order>, o: Order, x: Order)
    ensures
        side_rests(side_with(s, o), x) <==> (x == o || side_rests(s, x)),
{
    lemma_insert_index_bounds(s, o);
    let k = insert_index(s, o);
    let t = side_with(s, o);
    if side_rests(t, x) {
        let i = choose|i: int| 0 <= i < t.len() && #[trigger] t[i] == x;
        if i < k {
            assert(s[i] == x);
        } else if i > k {
            assert(s[i - 1] == x);
        }
    }
    if x == o {
        assert(t[k] == x);
    }
    if side_rests(s, x) {
        let i = choose|i: int| 0 <= i < s.len() && #[trigger] s[i] == x;
        if i < k {
            assert(t[i] == x);
        } else {
            assert(t[i + 1] == x);
        }
    }
}

/// Every order with volume that was offered rests in the book made of the
/// offers.
pub proof fn lemma_offered_rests(orders: Seq<Order>, i: int)
    requires
        0 <= i < orders.len(),
        orders[i].volume > 0,
    ensures
        rests(after_adds(orders), orders[i]),
    decreases orders.len(),
{
    let before = after_adds(orders.drop_last());
    let last = orders.last();
    let x = orders[i];
    if i < orders.len() - 1 {
        assert(orders.drop_last()[i] == x);
        lemma_offered_rests(orders.drop_last(), i);
    }
    if last.volume > 0 {
        match last.side {
            OrderSide::Buy => lemma_side_with_rests(before.buys, last, x),
            OrderSide::Sell => lemma_side_with_rests(before.sells, last, x),
        }
    }
}

/// A book made of offers alone is well formed.
pub proof fn lemma_after_adds_wf(orders: Seq<Order>)
    ensures
        after_adds(orders).wf(),
    decreases orders.len(),
{
    if orders.len() > 0 {
        lemma_after_adds_wf(orders.drop_last());
        lemma_with_order_wf(after_adds(orders.drop_last()), orders.last());
    }
}

/// Price-time priority: after any sequence of offers, the best buy bids at
/// least as much as every buy that was offered with volume, the best sell
/// asks at most as much as every such sell, and among orders at the best
/// price the one with the lowest id is the best.
pub proof fn lemma_price_time_priority(orders: Seq<Order>, i: int)
    requires
        0 <= i < orders.len(),
        orders[i].volume > 0,
    ensures
        orders[i].side == OrderSide::Buy ==> {
            let best = after_adds(orders).buys[0];
            &&& after_adds(orders).buys.len() > 0
            &&& best.price >= orders[i].price
            &&& best.price == orders[i].price ==> best.id <= orders[i].id
        },
        orders[i].side == OrderSide::Sell ==> {
            let best = after_adds(orders).sells[0];
            &&& after_adds(orders).sells.len() > 0
            &&& best.price <= orders[i].price
            &&& best.price == orders[i].price ==> best.id <= orders[i].id
        },
{
    let book = after_adds(orders);
    let x = orders[i];
    lemma_after_adds_wf(orders);
    lemma_offered_rests(orders, i);
    match x.side {
        OrderSide::Buy => {
            let k = choose|k: int| 0 <= k < book.buys.len() && #[trigger] book.buys[k] == x;
            lemma_head_is_best(book.buys, OrderSide::Buy, k);
        },
        OrderSide::Sell => {
            let k = choose|k: int| 0 <= k < book.sells.len() && #[trigger] book.sells[k] == x;
            lemma_head_is_best(book.sells, OrderSide::Sell, k);
        },
    }
}

/// A filter that keeps every order leaves the side as it is.
pub proof fn lemma_filter_keeps_all(s: Seq<Order>, keep: spec_fn(Order) -> bool)
    requires
        forall|j: int| 0 <= j < s.len() ==> keep(#[trigger] s[j]),
    ensures
        s.filter(keep) == s,
    decreases s.len(),
{
    reveal(Seq::filter);
    if s.len() > 0 {
        let r = s.drop_last();
        assert forall|j: int| 0 <= j < r.len() implies keep(#[trigger] r[j]) by {
            assert(r[j] == s[j]);
        }
        lemma_filter_keeps_all(r, keep);
        assert(s.last() == s[s.len() - 1]);
        assert(r.push(s.last()) =~= s);
    }
}

/// A filter that turns away exactly one order leaves the side without it.
pub proof fn lemma_filter_drops_one(s: Seq<Order>, keep: spec_fn(Order) -> bool, i: int)
    requires
        0 <= i < s.len(),
        !keep(s[i]),
        forall|j: int| 0 <= j < s.len() && j != i ==> keep(#[trigger] s[j]),
    ensures
        s.filter(keep) == s.remove(i),
    decreases s.len(),
{
    reveal(Seq::filter);
    let r = s.drop_last();
    assert(s.last() == s[s.len() - 1]);
    if i == s.len() - 1 {
        assert forall|j: int| 0 <= j < r.len() implies keep(#[trigger] r[j]) by {
            assert(r[j] == s[j]);
        }
        lemma_filter_keeps_all(r, keep);
        assert(r =~= s.remove(i));
    } else {
        assert(r[i] == s[i]);
        assert forall|j: int| 0 <= j < r.len() && j != i implies keep(#[trigger] r[j]) by {
            assert(r[j] == s[j]);
        }
        lemma_filter_drops_one(r, keep, i);
        assert(r.remove(i).push(s.last()) =~= s.remove(i));
    }
}

/// Volume reduction on a side where the id is held by one order only: a
/// fill that reaches the order's volume takes the order out and leaves all
/// others as they were; a smaller fill leaves the order in its place with
/// the rest of its volume, its id, side and price unchanged, and all others
/// as they were.
pub proof fn lemma_side_reduced_one(s: Seq<Order>, i: int, delta: u32)
    requires
        0 <= i < s.len(),
        forall|j: int| 0 <= j < s.len() && j != i ==> (#[trigger] s[j]).id != s[i].id,
    ensures
        delta >= s[i].volume ==> side_reduced(s, s[i].id, delta) == s.remove(i),
        delta < s[i].volume ==> side_reduced(s, s[i].id, delta) == s.update(
            i,
            Order { volume: (s[i].volume - delta) as u32, ..s[i] },
        ),
{
    let id = s[i].id;
    let keep = |o: Order| !(o.id == id && o.volume <= delta);
    let cut = |o: Order| if o.id == id { filled(o, delta) } else { o };
    assert(side_reduced(s, id, delta) == s.filter(keep).map_values(cut));
    if delta >= s[i].volume {
        lemma_filter_drops_one(s, keep, i);
        let r = s.remove(i);
        assert forall|j: int| 0 <= j < r.len() implies cut(#[trigger] r[j]) == r[j] by {
            if j < i {
                assert(r[j] == s[j]);
            } else {
                assert(r[j] == s[j + 1]);
            }
        }
        assert(r.map_values(cut) =~= r);
    } else {
        lemma_filter_keeps_all(s, keep);
        let u = s.update(i, Order { volume: (s[i].volume - delta) as u32, ..s[i] });
        assert forall|j: int| 0 <= j < s.len() implies cut(#[trigger] s[j]) == u[j] by {
            if j != i {
                assert(s[j].id != id);
            }
        }
        assert(s.map_values(cut) =~= u);
    }
}

/// A side that holds no order of an id is left as it is by a fill on that
/// id.
pub proof fn lemma_side_reduced_absent(s: Seq<Order>, id: u32, delta: u32)
    requires
        !side_has(s, id),
    ensures
        side_reduced(s, id, delta) == s,
{
    let keep = |o: Order| !(o.id == id && o.volume <= delta);
    let cut = |o: Order| if o.id == id { filled(o, delta) } else { o };
    assert(side_reduced(s, id, delta) == s.filter(keep).map_values(cut));
    assert forall|j: int| 0 <= j < s.len() implies keep(#[trigger] s[j]) && cut(s[j]) == s[j] by {
        if s[j].id == id {
            assert(side_has(s, id));
        }
    }
    lemma_filter_keeps_all(s, keep);
    assert(s.map_values(cut) =~= s);
}

/// Volume reduction in a book whose ids are apart, for an order `o` that
/// rests in it: a fill of at least the order's volume removes the order, and
/// the book then holds nothing under its id; a smaller fill leaves the order
/// resting with the rest of its volume and with its id, side, price and
/// instrument unchanged. Either way every order of another id rests as
/// before.
pub proof fn lemma_volume_reduction(book: BookView, o: Order, delta: u32)
    requires
        book.ids_unique(),
        rests(book, o),
    ensures
        delta >= o.volume ==> !book.with_reduction(o.id, delta).has(o.id),
        delta < o.volume ==> rests(
            book.with_reduction(o.id, delta),
            Order { volume: (o.volume - delta) as u32, ..o },
        ),
        forall|x: Order|
            x.id != o.id ==> (rests(book.with_reduction(o.id, delta), x) <==> rests(book, x)),
{
    let after = book.with_reduction(o.id, delta);
    match o.side {
        OrderSide::Buy => {
            let i = choose|i: int| 0 <= i < book.buys.len() && #[trigger] book.buys[i] == o;
            assert(side_has(book.buys, o.id));
            lemma_side_reduced_one(book.buys, i, delta);
            lemma_side_reduced_absent(book.sells, o.id, delta);
            lemma_one_changed(book.buys, after.buys, i, o, delta);
            assert(!side_has(after.sells, o.id));
        },
        OrderSide::Sell => {
            let i = choose|i: int| 0 <= i < book.sells.len() && #[trigger] book.sells[i] == o;
            assert(side_has(book.sells, o.id));
            lemma_side_reduced_one(book.sells, i, delta);
            lemma_side_reduced_absent(book.buys, o.id, delta);
            lemma_one_changed(book.sells, after.sells, i, o, delta);
            assert(!side_has(after.buys, o.id));
        },
    }
}

/// What a side holds after the one order at `i` has left it or has been
/// replaced by what a fill leaves of it.
proof fn lemma_one_changed(s: Seq<Order>, t: Seq<Order>, i: int, o: Order, delta: u32)
    requires
        0 <= i < s.len(),
        s[i] == o,
        distinct_ids(s),
        delta >= o.volume ==> t == s.remove(i),
        delta < o.volume ==> t == s.update(i, Order { volume: (o.volume - delta) as u32, ..o }),
    ensures
        delta >= o.volume ==> !side_has(t, o.id),
        delta < o.volume ==> side_rests(t, Order { volume: (o.volume - delta) as u32, ..o }),
        forall|x: Order| x.id != o.id ==> (side_rests(t, x) <==> side_rests(s, x)),
{
    if delta >= o.volume {
        if side_has(t, o.id) {
            let k = choose|k: int| 0 <= k < t.len() && (#[trigger] t[k]).id == o.id;
            if k < i {
                assert(t[k] == s[k]);
            } else {
                assert(t[k] == s[k + 1]);
            }
        }
    } else {
        assert(t[i] == Order { volume: (o.volume - delta) as u32, ..o });
    }
    assert forall|x: Order| x.id != o.id implies (side_rests(t, x) <==> side_rests(s, x)) by {
        if side_rests(t, x) {
            let k = choose|k: int| 0 <= k < t.len() && #[trigger] t[k] == x;
            if delta >= o.volume {
                if k < i {
                    assert(s[k] == x);
                } else {
                    assert(s[k + 1] == x);
                }
            } else {
                assert(s[k] == x);
            }
        }
        if side_rests(s, x) {
            let k = choose|k: int| 0 <= k < s.len() && #[trigger] s[k] == x;
            if delta >= o.volume {
                if k < i {
                    assert(t[k] == x);
                } else {
                    assert(t[k - 1] == x);
                }
            } else {
                assert(t[k] == x);
            }
        }
    }
}

/// Applying orders keeps a well-formed book well formed.
pub proof fn lemma_after_updates_wf(book: BookView, orders: Seq<Order>)
    requires
        book.wf(),
    ensures
        book.after_updates(orders).wf(),
    decreases orders.len(),
{
    if orders.len() > 0 {
        lemma_after_updates_wf(book, orders.drop_last());
        lemma_op_keeps_wf(book.after_updates(orders.drop_last()), BookOp::Update(orders.last()));
    }
}

/// A filter finds nothing to keep in a single order that it turns away, and
/// keeps a single order that it lets pass.
pub proof fn lemma_filter_single(o: Order, keep: spec_fn(Order) -> bool)
    ensures
        seq![o].filter(keep) == if keep(o) {
            seq![o]
        } else {
            Seq::<Order>::empty()
        },
{
    reveal(Seq::filter);
    let e = Seq::<Order>::empty();
    assert(e.filter(keep) =~= e);
    assert(e.push(o) =~= seq![o]);
    e.lemma_filter_push(o, keep);
}

/// An order that a filter turns away makes no difference to what the filter
/// leaves of a side, wherever the order stood.
pub proof fn lemma_filter_after_insert(s: Seq<Order>, k: int, o: Order, keep: spec_fn(Order) -> bool)
    requires
        0 <= k <= s.len(),
    ensures
        s.insert(k, o).filter(keep) == if keep(o) {
            s.take(k).filter(keep) + seq![o] + s.skip(k).filter(keep)
        } else {
            s.filter(keep)
        },
        s.filter(keep) == s.take(k).filter(keep) + s.skip(k).filter(keep),
{
    let a = s.take(k);
    let b = s.skip(k);
    assert(s =~= a + b);
    assert(s.insert(k, o) =~= (a + seq![o]) + b);
    Seq::filter_distributes_over_add(a, b, keep);
    Seq::filter_distributes_over_add(a + seq![o], b, keep);
    Seq::filter_distributes_over_add(a, seq![o], keep);
    lemma_filter_single(o, keep);
    if !keep(o) {
        assert(a.filter(keep) + Seq::<Order>::empty() =~= a.filter(keep));
    }
}

/// Two filters leave the same of a side in whichever order they are
/// applied.
pub proof fn lemma_filters_commute(
    s: Seq<Order>,
    p: spec_fn(Order) -> bool,
    q: spec_fn(Order) -> bool,
)
    ensures
        s.filter(p).filter(q) == s.filter(q).filter(p),
    decreases s.len(),
{
    reveal(Seq::filter);
    if s.len() > 0 {
        let r = s.drop_last();
        let x = s.last();
        lemma_filters_commute(r, p, q);
        assert(s =~= r.push(x));
        r.lemma_filter_push(x, p);
        r.lemma_filter_push(x, q);
        r.filter(p).lemma_filter_push(x, q);
        r.filter(q).lemma_filter_push(x, p);
    }
}

/// Placing an order by priority and then leaving orders out gives the same
/// side as leaving them out first, if the order itself is kept.
pub proof fn lemma_filter_commutes_with_place(s: Seq<Order>, x: Order, keep: spec_fn(Order) -> bool)
    requires
        side_wf(s, x.side),
        keep(x),
    ensures
        side_with(s, x).filter(keep) == side_with(s.filter(keep), x),
{
    lemma_insert_index_bounds(s, x);
    let k = insert_index(s, x);
    let a = s.take(k);
    let b = s.skip(k);
    let fa = a.filter(keep);
    let fb = b.filter(keep);
    lemma_filter_after_insert(s, k, x, keep);
    let f = s.filter(keep);
    assert(f == fa + fb);
    assert forall|j: int| 0 <= j < fa.len() implies !x.ranks_before(#[trigger] f[j]) by {
        assert(f[j] == fa[j]);
        assert(fa.contains(fa[j]));
        a.lemma_filter_contains_rev(keep, fa[j]);
        let m = choose|m: int| 0 <= m < a.len() && a[m] == fa[j];
        assert(a[m] == s[m]);
    }
    if fa.len() < f.len() {
        assert(f[fa.len() as int] == fb[0]);
        assert(fb.contains(fb[0]));
        b.lemma_filter_contains_rev(keep, fb[0]);
        let m = choose|m: int| 0 <= m < b.len() && b[m] == fb[0];
        assert(b[m] == s[k + m]);
        assert(x.ranks_before(s[k]));
        assert(s[k].side == x.side);
        assert(s[k + m].side == x.side);
        if m > 0 {
            assert(!s[k + m].ranks_before(s[k]));
        }
        assert(x.ranks_before(s[k + m]));
    }
    lemma_insert_index(f, x, fa.len() as int);
    assert(f.insert(fa.len() as int, x) =~= fa + seq![x] + fb);
}

/// Leaving out the orders of an id a second time changes nothing.
pub proof fn lemma_side_without_twice(s: Seq<Order>, id: u32)
    ensures
        side_without(side_without(s, id), id) == side_without(s, id),
{
    let keep = |o: Order| o.id != id;
    let t = s.filter(keep);
    assert(t == side_without(s, id));
    assert forall|j: int| 0 <= j < t.len() implies keep(#[trigger] t[j]) by {
        s.lemma_filter_pred(keep, j);
    }
    lemma_filter_keeps_all(t, keep);
}

/// What an update put into a book leaves with its id: a book just updated
/// with an order and the book before the update are the same once the
/// order's id is taken out of both.
pub proof fn lemma_update_then_without(book: BookView, a: Order)
    ensures
        book.with_update(a).without(a.id) == book.without(a.id),
{
    let id = a.id;
    let keep = |o: Order| o.id != id;
    let base = book.without(id);
    lemma_side_without_twice(book.buys, id);
    lemma_side_without_twice(book.sells, id);
    if a.volume > 0 {
        match a.side {
            OrderSide::Buy => {
                lemma_insert_index_bounds(base.buys, a);
                lemma_filter_after_insert(base.buys, insert_index(base.buys, a), a, keep);
            },
            OrderSide::Sell => {
                lemma_insert_index_bounds(base.sells, a);
                lemma_filter_after_insert(base.sells, insert_index(base.sells, a), a, keep);
            },
        }
    }
}

/// An update and the removal of another id can be done in either order.
pub proof fn lemma_update_commutes_with_without(book: BookView, x: Order, id: u32)
    requires
        book.wf(),
        x.id != id,
    ensures
        book.with_update(x).without(id) == book.without(id).with_update(x),
{
    let keep = |o: Order| o.id != id;
    let keep_x = |o: Order| o.id != x.id;
    lemma_filters_commute(book.buys, keep_x, keep);
    lemma_filters_commute(book.sells, keep_x, keep);
    lemma_without_wf(book, x.id);
    let base = book.without(x.id);
    if x.volume > 0 {
        match x.side {
            OrderSide::Buy => {
                lemma_filter_commutes_with_place(base.buys, x, keep);
            },
            OrderSide::Sell => {
                lemma_filter_commutes_with_place(base.sells, x, keep);
            },
        }
    }
}

/// The orders of a sequence that are the last of their id, in their order.
pub open spec fn last_writes(orders: Seq<Order>) -> Seq<Order>
    decreases orders.len(),
{
    if orders.len() == 0 {
        Seq::empty()
    } else {
        side_without(last_writes(orders.drop_last()), orders.last().id).push(orders.last())
    }
}

/// Two runs of updates that differ only in orders of one id leave books
/// that are the same once that id is taken out of both.
pub proof fn lemma_updates_agree_off_id(book: BookView, orders: Seq<Order>, id: u32)
    requires
        book.wf(),
    ensures
        book.after_updates(orders).without(id) == book.after_updates(
            side_without(orders, id),
        ).without(id),
    decreases orders.len(),
{
    let keep = |o: Order| o.id != id;
    if orders.len() > 0 {
        let init = orders.drop_last();
        let x = orders.last();
        lemma_updates_agree_off_id(book, init, id);
        lemma_after_updates_wf(book, init);
        lemma_after_updates_wf(book, side_without(init, id));
        let full = book.after_updates(init);
        let thin = book.after_updates(side_without(init, id));
        assert(full.without(id) == thin.without(id));
        assert(book.after_updates(orders) == full.with_update(x));
        assert(orders =~= init.push(x));
        init.lemma_filter_push(x, keep);
        assert(side_without(orders, id) == orders.filter(keep));
        assert(side_without(init, id) == init.filter(keep));
        if x.id == id {
            assert(side_without(orders, id) == side_without(init, id));
            lemma_update_then_without(full, x);
        } else {
            let kept = side_without(init, id).push(x);
            assert(side_without(orders, id) == kept);
            assert(kept.drop_last() =~= side_without(init, id));
            assert(kept.last() == x);
            assert(book.after_updates(kept) == thin.with_update(x));
            lemma_update_commutes_with_without(full, x, id);
            lemma_update_commutes_with_without(thin, x, id);
        }
    }
}

/// Last write wins: applying a run of orders leaves the same book as
/// applying only those orders that are the last of their id. An order that a
/// later one of the same id follows might as well have been left out.
pub proof fn lemma_last_write_wins(book: BookView, orders: Seq<Order>)
    requires
        book.wf(),
    ensures
        book.after_updates(orders) == book.after_updates(last_writes(orders)),
    decreases orders.len(),
{
    if orders.len() > 0 {
        let init = orders.drop_last();
        let x = orders.last();
        let wins = last_writes(init);
        lemma_last_write_wins(book, init);
        lemma_updates_agree_off_id(book, wins, x.id);
        let thin = side_without(wins, x.id);
        assert(last_writes(orders) == thin.push(x));
        assert(thin.push(x).drop_last() =~= thin);
        assert(thin.push(x).last() == x);
    }
}

/// Leaving orders out of a side brings no id into it and keeps its ids
/// distinct.
pub proof fn lemma_filter_ids(s: Seq<Order>, keep: spec_fn(Order) -> bool)
    ensures
        forall|id: u32| side_has(s.filter(keep), id) ==> side_has(s, id),
        distinct_ids(s) ==> distinct_ids(s.filter(keep)),
    decreases s.len(),
{
    reveal(Seq::filter);
    let t = s.filter(keep);
    if s.len() > 0 {
        let r = s.drop_last();
        let fr = r.filter(keep);
        lemma_filter_ids(r, keep);
        assert forall|id: u32| side_has(t, id) implies side_has(s, id) by {
            let i = choose|i: int| 0 <= i < t.len() && (#[trigger] t[i]).id == id;
            if i < fr.len() {
                assert(fr[i].id == id);
                assert(side_has(r, id));
                let m = choose|m: int| 0 <= m < r.len() && (#[trigger] r[m]).id == id;
                assert(s[m].id == id);
            } else {
                assert(s[s.len() - 1].id == id);
            }
        }
        if distinct_ids(s) {
            assert forall|i: int, j: int| 0 <= i < j < r.len() implies (#[trigger] r[i]).id != (
            #[trigger] r[j]).id by {
                assert(r[i] == s[i] && r[j] == s[j]);
            }
            assert forall|i: int, j: int| 0 <= i < j < t.len() implies (#[trigger] t[i]).id != (
            #[trigger] t[j]).id by {
                if j < fr.len() {
                    assert(t[i] == fr[i] && t[j] == fr[j]);
                } else {
                    assert(fr[i].id == t[i].id);
                    if fr[i].id == s.last().id {
                        assert(side_has(r, fr[i].id));
                        let m = choose|m: int| 0 <= m < r.len() && (#[trigger] r[m]).id == fr[i].id;
                        assert(s[m].id == s[s.len() - 1].id);
                    }
                }
            }
        }
    }
}

/// A fill brings no id into a side and keeps its ids distinct.
pub proof fn lemma_side_reduced_ids(s: Seq<Order>, id: u32, delta: u32)
    ensures
        forall|x: u32| side_has(side_reduced(s, id, delta), x) ==> side_has(s, x),
        distinct_ids(s) ==> distinct_ids(side_reduced(s, id, delta)),
{
    let keep = |o: Order| !(o.id == id && o.volume <= delta);
    let cut = |o: Order| if o.id == id { filled(o, delta) } else { o };
    let f = s.filter(keep);
    let t = f.map_values(cut);
    assert(t == side_reduced(s, id, delta));
    lemma_filter_ids(s, keep);
    assert forall|i: int| 0 <= i < t.len() implies (#[trigger] t[i]).id == f[i].id by {}
    assert forall|x: u32| side_has(t, x) implies side_has(s, x) by {
        let i = choose|i: int| 0 <= i < t.len() && (#[trigger] t[i]).id == x;
        assert(f[i].id == x);
        assert(side_has(f, x));
    }
    if distinct_ids(s) {
        assert forall|i: int, j: int| 0 <= i < j < t.len() implies (#[trigger] t[i]).id != (
        #[trigger] t[j]).id by {
            assert(f[i].id != f[j].id);
        }
    }
}

/// A side with a new order holds the ids it held and the new one; its ids
/// stay distinct if the new id was not among them.
pub proof fn lemma_side_with_ids(s: Seq<Order>, o: Order)
    ensures
        forall|id: u32| side_has(side_with(s, o), id) <==> (id == o.id || side_has(s, id)),
        distinct_ids(s) && !side_has(s, o.id) ==> distinct_ids(side_with(s, o)),
{
    lemma_insert_index_bounds(s, o);
    let k = insert_index(s, o);
    let t = side_with(s, o);
    assert forall|id: u32| side_has(t, id) <==> (id == o.id || side_has(s, id)) by {
        if side_has(t, id) {
            let i = choose|i: int| 0 <= i < t.len() && (#[trigger] t[i]).id == id;
            if i < k {
                assert(s[i].id == id);
            } else if i > k {
                assert(s[i - 1].id == id);
            }
        }
        if id == o.id {
            assert(t[k].id == id);
        }
        if side_has(s, id) {
            let i = choose|i: int| 0 <= i < s.len() && (#[trigger] s[i]).id == id;
            if i < k {
                assert(t[i].id == id);
            } else {
                assert(t[i + 1].id == id);
            }
        }
    }
    if distinct_ids(s) && !side_has(s, o.id) {
        assert forall|i: int, j: int| 0 <= i < j < t.len() implies (#[trigger] t[i]).id != (
        #[trigger] t[j]).id by {
            let a = if i < k { i } else { i - 1 };
            let b = if j < k { j } else { j - 1 };
            if i == k {
                assert(t[j] == s[b]);
            } else if j == k {
                assert(t[i] == s[a]);
            } else {
                assert(t[i] == s[a] && t[j] == s[b]);
            }
        }
    }
}

/// What is left of a side below its first `n` orders holds no new id and
/// keeps its ids distinct.
pub proof fn lemma_skip_ids(s: Seq<Order>, n: int)
    requires
        0 <= n <= s.len(),
    ensures
        forall|id: u32| side_has(s.skip(n), id) ==> side_has(s, id),
        distinct_ids(s) ==> distinct_ids(s.skip(n)),
{
    let t = s.skip(n);
    assert forall|id: u32| side_has(t, id) implies side_has(s, id) by {
        let i = choose|i: int| 0 <= i < t.len() && (#[trigger] t[i]).id == id;
        assert(s[i + n].id == id);
    }
    if distinct_ids(s) {
        assert forall|i: int, j: int| 0 <= i < j < t.len() implies (#[trigger] t[i]).id != (
        #[trigger] t[j]).id by {
            assert(t[i] == s[i + n] && t[j] == s[j + n]);
        }
    }
}

/// An order rests in at most one place: offering an order whose id is not
/// in the book, removing an id, updating, filling and sweeping all keep the
/// ids of a book apart.
pub proof fn lemma_op_keeps_ids_unique(book: BookView, op: BookOp)
    requires
        book.ids_unique(),
        op matches BookOp::Add(o) ==> !book.has(o.id) || o.volume == 0,
    ensures
        after_op(book, op).ids_unique(),
{
    match op {
        BookOp::Add(o) => {
            lemma_with_order_ids(book, o);
        },
        BookOp::Remove(id) => {
            lemma_without_ids(book, id);
        },
        BookOp::Update(o) => {
            lemma_without_ids(book, o.id);
            lemma_with_order_ids(book.without(o.id), o);
        },
        BookOp::ModifyVolume(id, delta) => {
            lemma_with_reduction_ids(book, id, delta);
        },
        BookOp::Sweep => {
            lemma_swept_ids(book);
        },
    }
}

/// A fill keeps the ids of a book apart and brings no id into it.
pub proof fn lemma_with_reduction_ids(book: BookView, id: u32, delta: u32)
    ensures
        book.ids_unique() ==> book.with_reduction(id, delta).ids_unique(),
        forall|x: u32| book.with_reduction(id, delta).has(x) ==> book.has(x),
{
    let after = book.with_reduction(id, delta);
    lemma_side_reduced_ids(book.buys, id, delta);
    lemma_side_reduced_ids(book.sells, id, delta);
    assert forall|x: u32| after.has(x) implies book.has(x) by {
        if side_has(after.buys, x) {
            assert(side_has(book.buys, x));
        } else {
            assert(side_has(after.sells, x));
            assert(side_has(book.sells, x));
        }
    }
    if book.ids_unique() {
        assert forall|x: u32| !(side_has(after.buys, x) && side_has(after.sells, x)) by {
            assert(!(side_has(book.buys, x) && side_has(book.sells, x)));
        }
    }
}

/// A sweep keeps the ids of a book apart and brings no id into it.
pub proof fn lemma_swept_ids(book: BookView)
    ensures
        book.ids_unique() ==> book.swept().ids_unique(),
        forall|x: u32| book.swept().has(x) ==> book.has(x),
{
    let after = book.swept();
    lemma_crossing_depth(book.buys, book.sells);
    let d = crossing_depth(book.buys, book.sells) as int;
    lemma_skip_ids(book.buys, d);
    lemma_skip_ids(book.sells, d);
    assert(after.buys == book.buys.skip(d));
    assert(after.sells == book.sells.skip(d));
    assert forall|x: u32| after.has(x) implies book.has(x) by {
        if side_has(after.buys, x) {
            assert(side_has(book.buys, x));
        } else {
            assert(side_has(after.sells, x));
            assert(side_has(book.sells, x));
        }
    }
    if book.ids_unique() {
        assert forall|x: u32| !(side_has(after.buys, x) && side_has(after.sells, x)) by {
            assert(!(side_has(book.buys, x) && side_has(book.sells, x)));
        }
    }
}

/// Offering an order whose id the book does not hold keeps the ids apart,
/// and the book then holds that id besides those it held.
pub proof fn lemma_with_order_ids(book: BookView, o: Order)
    ensures
        book.ids_unique() && (!book.has(o.id) || o.volume == 0) ==> book.with_order(
            o,
        ).ids_unique(),
        forall|id: u32|
            book.with_order(o).has(id) <==> ((o.volume > 0 && id == o.id) || book.has(id)),
{
    let after = book.with_order(o);
    if o.volume > 0 {
        match o.side {
            OrderSide::Buy => {
                lemma_side_with_ids(book.buys, o);
                assert(after.buys == side_with(book.buys, o));
                assert(after.sells == book.sells);
            },
            OrderSide::Sell => {
                lemma_side_with_ids(book.sells, o);
                assert(after.sells == side_with(book.sells, o));
                assert(after.buys == book.buys);
            },
        }
    }
    assert forall|id: u32| after.has(id) <==> ((o.volume > 0 && id == o.id) || book.has(id)) by {
        assert(after.has(id) == (side_has(after.buys, id) || side_has(after.sells, id)));
        assert(book.has(id) == (side_has(book.buys, id) || side_has(book.sells, id)));
    }
    if book.ids_unique() && (!book.has(o.id) || o.volume == 0) {
        assert forall|id: u32| !(side_has(after.buys, id) && side_has(after.sells, id)) by {
            assert(!(side_has(book.buys, id) && side_has(book.sells, id)));
        }
    }
}

/// Taking an id out keeps the ids apart; the book then holds every other id
/// it held, and not that one.
pub proof fn lemma_without_ids(book: BookView, id: u32)
    ensures
        book.ids_unique() ==> book.without(id).ids_unique(),
        !book.without(id).has(id),
        forall|other: u32| other != id ==> (book.without(id).has(other) <==> book.has(other)),
{
    let keep = |o: Order| o.id != id;
    lemma_filter_ids(book.buys, keep);
    lemma_filter_ids(book.sells, keep);
    lemma_side_without_has(book.buys, id, id);
    lemma_side_without_has(book.sells, id, id);
    let after = book.without(id);
    assert(after.buys == book.buys.filter(keep));
    assert(after.sells == book.sells.filter(keep));
    assert forall|other: u32| other != id implies (after.has(other) <==> book.has(other)) by {
        lemma_side_without_has(book.buys, id, other);
        lemma_side_without_has(book.sells, id, other);
    }
    if book.ids_unique() {
        assert forall|x: u32| !(side_has(after.buys, x) && side_has(after.sells, x)) by {
            assert(!(side_has(book.buys, x) && side_has(book.sells, x)));
        }
    }
}

} // verus!
