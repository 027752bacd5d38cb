use haos_orderbook::orderbook::order::{Order, OrderSide};
use haos_orderbook::orderbook::{MatchedOrders, OrderBook};

fn buy(id: u32, volume: u32, price: u32) -> Order {
    Order::new(id, 1, volume, price, OrderSide::Buy)
}

fn sell(id: u32, volume: u32, price: u32) -> Order {
    Order::new(id, 1, volume, price, OrderSide::Sell)
}

fn ids(orders: &Vec<Order>) -> Vec<u32> {
    orders.iter().map(|o| o.id).collect()
}

#[test]
fn test_add_match() {
    let mut book = OrderBook::new();

    let buy_order = Order::new(1, 1, 100, 11, OrderSide::Buy);
    let sell_order = Order::new(2, 1, 100, 10, OrderSide::Sell);

    book.add_order(buy_order);
    book.add_order(sell_order);

    let matches = book.find_matching_orders();
    assert!(matches.is_some());
    let matches = matches.unwrap();
    assert_eq!(matches.maker_order_id, 1);
    assert_eq!(matches.taker_order_id, 2);
}

#[test]
fn order_new_keeps_every_field() {
    let order = Order::new(7, 3, 250, 42, OrderSide::Sell);
    assert_eq!(order.id, 7);
    assert_eq!(order.contract_id, 3);
    assert_eq!(order.volume, 250);
    assert_eq!(order.price, 42);
    assert_eq!(order.side, OrderSide::Sell);
}

#[test]
fn precedes_ranks_buys_by_price_down_then_id_up() {
    assert!(buy(5, 1, 11).precedes(&buy(1, 1, 10)));
    assert!(!buy(1, 1, 10).precedes(&buy(5, 1, 11)));
    assert!(buy(1, 1, 10).precedes(&buy(2, 1, 10)));
    assert!(!buy(2, 1, 10).precedes(&buy(1, 1, 10)));
    assert!(!buy(2, 1, 10).precedes(&buy(2, 9, 10)));
}

#[test]
fn precedes_ranks_sells_by_price_up_then_id_up() {
    assert!(sell(5, 1, 9).precedes(&sell(1, 1, 10)));
    assert!(!sell(1, 1, 10).precedes(&sell(5, 1, 9)));
    assert!(sell(1, 1, 10).precedes(&sell(2, 1, 10)));
    assert!(!sell(2, 1, 10).precedes(&sell(1, 1, 10)));
}

#[test]
fn new_book_is_empty() {
    let book = OrderBook::new();
    assert!(book.buy_orders().is_empty());
    assert!(book.sell_orders().is_empty());
    assert_eq!(book.best_buy(), None);
    assert_eq!(book.best_sell(), None);
    assert_eq!(book.best_crossing_pair(), None);
    assert_eq!(book.find_matching_orders(), None);
}

#[test]
fn add_order_turns_zero_volume_away() {
    let mut book = OrderBook::new();
    assert!(!book.add_order(buy(1, 0, 10)));
    assert!(!book.add_order(sell(2, 0, 10)));
    assert!(book.buy_orders().is_empty());
    assert!(book.sell_orders().is_empty());
}

#[test]
fn add_order_takes_any_volume_above_zero() {
    let mut book = OrderBook::new();
    assert!(book.add_order(buy(1, 1, 10)));
    assert!(book.add_order(sell(2, u32::MAX, 20)));
    assert_eq!(book.buy_orders().len(), 1);
    assert_eq!(book.sell_orders().len(), 1);
}

#[test]
fn best_buy_is_highest_price_then_lowest_id() {
    let mut book = OrderBook::new();
    book.add_order(buy(4, 10, 100));
    book.add_order(buy(2, 10, 105));
    book.add_order(buy(9, 10, 105));
    book.add_order(buy(1, 10, 99));
    book.add_order(buy(3, 10, 105));
    assert_eq!(book.best_buy().map(|o| o.id), Some(2));
    assert_eq!(ids(book.buy_orders()), vec![2, 3, 9, 4, 1]);
}

#[test]
fn best_sell_is_lowest_price_then_lowest_id() {
    let mut book = OrderBook::new();
    book.add_order(sell(4, 10, 100));
    book.add_order(sell(8, 10, 95));
    book.add_order(sell(9, 10, 105));
    book.add_order(sell(5, 10, 95));
    assert_eq!(book.best_sell().map(|o| o.id), Some(5));
    assert_eq!(ids(book.sell_orders()), vec![5, 8, 4, 9]);
}

#[test]
fn orders_of_equal_rank_keep_their_order_of_arrival() {
    let mut book = OrderBook::new();
    book.add_order(Order::new(1, 1, 10, 100, OrderSide::Buy));
    book.add_order(Order::new(1, 1, 20, 100, OrderSide::Buy));
    book.add_order(Order::new(1, 1, 30, 100, OrderSide::Buy));
    let volumes: Vec<u32> = book.buy_orders().iter().map(|o| o.volume).collect();
    assert_eq!(volumes, vec![10, 20, 30]);
}

#[test]
fn no_zero_volume_rests_after_mixed_operations() {
    let mut book = OrderBook::new();
    book.add_order(buy(1, 5, 10));
    book.add_order(buy(2, 0, 11));
    book.add_order(sell(3, 7, 12));
    book.update_order(sell(3, 0, 12));
    book.update_order(buy(4, 3, 9));
    book.modify_order_volume(1, 5);
    book.modify_order_volume(4, 1);
    book.update_order(sell(5, 0, 1));
    for order in book.buy_orders().iter().chain(book.sell_orders().iter()) {
        assert!(order.volume > 0);
    }
    assert_eq!(ids(book.buy_orders()), vec![4]);
    assert_eq!(book.buy_orders()[0].volume, 2);
    assert!(book.sell_orders().is_empty());
}

#[test]
fn crossing_pair_names_lower_id_as_maker_and_leaves_book_alone() {
    let mut book = OrderBook::new();
    book.add_order(buy(1, 100, 11));
    book.add_order(sell(2, 100, 10));
    let before_buys = book.buy_orders().clone();
    let before_sells = book.sell_orders().clone();
    assert_eq!(
        book.find_matching_orders(),
        Some(MatchedOrders { taker_order_id: 2, maker_order_id: 1 })
    );
    assert_eq!(book.buy_orders(), &before_buys);
    assert_eq!(book.sell_orders(), &before_sells);
}

#[test]
fn crossing_pair_with_older_sell_names_sell_as_maker() {
    let mut book = OrderBook::new();
    book.add_order(sell(1, 100, 10));
    book.add_order(buy(2, 100, 11));
    assert_eq!(
        book.find_matching_orders(),
        Some(MatchedOrders { taker_order_id: 2, maker_order_id: 1 })
    );
    let pair = book.best_crossing_pair().unwrap();
    assert_eq!(pair.0.id, 2);
    assert_eq!(pair.1.id, 1);
}

#[test]
fn equal_prices_cross() {
    let mut book = OrderBook::new();
    book.add_order(buy(3, 1, 10));
    book.add_order(sell(4, 1, 10));
    assert_eq!(
        book.find_matching_orders(),
        Some(MatchedOrders { taker_order_id: 4, maker_order_id: 3 })
    );
}

#[test]
fn no_match_below_spread() {
    let mut book = OrderBook::new();
    book.add_order(buy(1, 40, 90));
    book.add_order(sell(2, 60, 100));
    assert_eq!(book.find_matching_orders(), None);
    assert_eq!(book.best_crossing_pair(), None);
    assert_eq!(book.buy_orders(), &vec![buy(1, 40, 90)]);
    assert_eq!(book.sell_orders(), &vec![sell(2, 60, 100)]);
}

#[test]
fn one_sided_book_has_no_match() {
    let mut book = OrderBook::new();
    book.add_order(buy(1, 40, 90));
    assert_eq!(book.find_matching_orders(), None);
    let mut book = OrderBook::new();
    book.add_order(sell(1, 40, 90));
    assert_eq!(book.find_matching_orders(), None);
}

#[test]
fn remove_order_tells_whether_the_id_rested() {
    let mut book = OrderBook::new();
    book.add_order(buy(1, 10, 10));
    book.add_order(sell(2, 10, 20));
    assert!(!book.remove_order(3));
    assert!(book.remove_order(1));
    assert!(!book.remove_order(1));
    assert!(book.buy_orders().is_empty());
    assert_eq!(ids(book.sell_orders()), vec![2]);
    assert!(book.remove_order(2));
    assert!(book.sell_orders().is_empty());
}

#[test]
fn remove_order_takes_the_id_from_both_sides() {
    let mut book = OrderBook::new();
    book.add_order(buy(7, 10, 10));
    book.add_order(sell(7, 10, 20));
    book.add_order(buy(8, 10, 9));
    assert!(book.remove_order(7));
    assert_eq!(ids(book.buy_orders()), vec![8]);
    assert!(book.sell_orders().is_empty());
}

#[test]
fn update_order_creates_an_unknown_order() {
    let mut book = OrderBook::new();
    assert!(book.update_order(buy(1, 10, 10)));
    assert_eq!(book.buy_orders(), &vec![buy(1, 10, 10)]);
}

#[test]
fn update_order_replaces_price_and_side() {
    let mut book = OrderBook::new();
    book.add_order(buy(1, 10, 10));
    book.add_order(buy(2, 10, 9));
    assert!(book.update_order(sell(1, 4, 30)));
    assert_eq!(ids(book.buy_orders()), vec![2]);
    assert_eq!(book.sell_orders(), &vec![sell(1, 4, 30)]);
}

#[test]
fn update_order_with_zero_volume_removes() {
    let mut book = OrderBook::new();
    book.add_order(buy(1, 10, 10));
    assert!(book.update_order(buy(1, 0, 10)));
    assert!(book.buy_orders().is_empty());
    assert!(book.update_order(buy(5, 0, 10)));
    assert!(book.buy_orders().is_empty());
}

#[test]
fn modify_order_volume_with_full_fill_removes_the_order() {
    let mut book = OrderBook::new();
    book.add_order(buy(1, 10, 10));
    book.add_order(buy(2, 10, 9));
    assert!(book.modify_order_volume(1, 10));
    assert_eq!(book.buy_orders(), &vec![buy(2, 10, 9)]);
}

#[test]
fn modify_order_volume_with_larger_fill_removes_the_order() {
    let mut book = OrderBook::new();
    book.add_order(sell(1, 10, 10));
    assert!(book.modify_order_volume(1, u32::MAX));
    assert!(book.sell_orders().is_empty());
}

#[test]
fn modify_order_volume_with_partial_fill_keeps_id_side_and_price() {
    let mut book = OrderBook::new();
    book.add_order(sell(1, 10, 10));
    book.add_order(sell(2, 10, 10));
    assert!(book.modify_order_volume(1, 3));
    assert_eq!(book.sell_orders(), &vec![sell(1, 7, 10), sell(2, 10, 10)]);
}

#[test]
fn modify_order_volume_with_zero_fill_changes_nothing() {
    let mut book = OrderBook::new();
    book.add_order(buy(1, 10, 10));
    assert!(book.modify_order_volume(1, 0));
    assert_eq!(book.buy_orders(), &vec![buy(1, 10, 10)]);
}

#[test]
fn modify_order_volume_of_unknown_id_changes_nothing() {
    let mut book = OrderBook::new();
    book.add_order(buy(1, 10, 10));
    assert!(!book.modify_order_volume(2, 5));
    assert_eq!(book.buy_orders(), &vec![buy(1, 10, 10)]);
}

#[test]
fn match_orders_sweeps_every_crossing_pair() {
    let mut book = OrderBook::new();
    book.add_order(buy(1, 10, 12));
    book.add_order(buy(2, 10, 11));
    book.add_order(buy(3, 10, 9));
    book.add_order(sell(4, 10, 8));
    book.add_order(sell(5, 10, 11));
    book.add_order(sell(6, 10, 13));
    let matches = book.match_orders();
    assert_eq!(ids(&matches), vec![1, 4, 2, 5]);
    assert_eq!(ids(book.buy_orders()), vec![3]);
    assert_eq!(ids(book.sell_orders()), vec![6]);
}

#[test]
fn match_orders_without_cross_takes_nothing() {
    let mut book = OrderBook::new();
    book.add_order(buy(1, 10, 9));
    book.add_order(sell(2, 10, 10));
    assert!(book.match_orders().is_empty());
    assert_eq!(ids(book.buy_orders()), vec![1]);
    assert_eq!(ids(book.sell_orders()), vec![2]);
}

#[test]
fn match_orders_stops_when_one_side_runs_out() {
    let mut book = OrderBook::new();
    book.add_order(buy(1, 10, 12));
    book.add_order(buy(2, 10, 11));
    book.add_order(sell(3, 10, 1));
    let matches = book.match_orders();
    assert_eq!(ids(&matches), vec![1, 3]);
    assert_eq!(ids(book.buy_orders()), vec![2]);
    assert!(book.sell_orders().is_empty());
}
