use std::cell::RefCell;

use haos_orderbook::config::{resolve_config, ServerConfig, RPC_URL, RPC_URL_WS};
use haos_orderbook::mdata::{
    notify_owners, MarketData, MarketDataDelegate, OrderDelegate, TradeData,
};
use haos_orderbook::order_manager::TradeExecution;
use haos_orderbook::orderbook::order::{Order, OrderSide};
use haos_orderbook::orderbook::OrderBook;
use haos_orderbook::server::{OrderMatch, OrdersMatchedEvent, RebootService};

struct Recorder {
    trades: RefCell<Vec<TradeData>>,
    books: RefCell<Vec<(u32, usize, usize)>>,
    executions: RefCell<Vec<(u32, u32, u32, u32)>>,
}

impl Recorder {
    fn new() -> Recorder {
        Recorder {
            trades: RefCell::new(Vec::new()),
            books: RefCell::new(Vec::new()),
            executions: RefCell::new(Vec::new()),
        }
    }
}

impl MarketDataDelegate for &Recorder {
    fn on_public_trade(&self, trade_data: TradeData) {
        self.trades.borrow_mut().push(trade_data);
    }

    fn on_order_book(&self, contract_id: u32, order_book: &OrderBook) {
        self.books.borrow_mut().push((
            contract_id,
            order_book.buy_orders().len(),
            order_book.sell_orders().len(),
        ));
    }
}

impl OrderDelegate for Recorder {
    fn on_order_execution(&self, contract_id: u32, order_id: u32, trade_volume: u32, price: u32) {
        self.executions.borrow_mut().push((contract_id, order_id, trade_volume, price));
    }
}

fn book() -> OrderBook {
    let mut book = OrderBook::new();
    book.add_order(Order::new(1, 0, 10, 11, OrderSide::Buy));
    book.add_order(Order::new(2, 0, 4, 10, OrderSide::Sell));
    book.add_order(Order::new(3, 0, 8, 12, OrderSide::Sell));
    book
}

#[test]
fn new_service_has_an_empty_book() {
    let mut service = RebootService::new();
    service.process_events(OrdersMatchedEvent {
        matches: vec![OrderMatch { order_id: 1, matched_volume: 5 }],
    });
    assert!(service.order_book().buy_orders().is_empty());
    assert!(service.order_book().sell_orders().is_empty());
}

#[test]
fn process_events_takes_each_fill_off_its_order() {
    let mut service = RebootService::with_order_book(book());
    service.process_events(OrdersMatchedEvent {
        matches: vec![
            OrderMatch { order_id: 1, matched_volume: 4 },
            OrderMatch { order_id: 2, matched_volume: 4 },
        ],
    });
    assert_eq!(
        service.order_book().buy_orders(),
        &vec![Order::new(1, 0, 6, 11, OrderSide::Buy)]
    );
    assert_eq!(
        service.order_book().sell_orders(),
        &vec![Order::new(3, 0, 8, 12, OrderSide::Sell)]
    );
}

#[test]
fn process_events_applies_repeated_fills_one_after_the_other() {
    let mut service = RebootService::with_order_book(book());
    service.process_events(OrdersMatchedEvent {
        matches: vec![
            OrderMatch { order_id: 3, matched_volume: 3 },
            OrderMatch { order_id: 9, matched_volume: 3 },
            OrderMatch { order_id: 3, matched_volume: 3 },
            OrderMatch { order_id: 1, matched_volume: 100 },
        ],
    });
    assert!(service.order_book().buy_orders().is_empty());
    assert_eq!(
        service.order_book().sell_orders(),
        &vec![Order::new(2, 0, 4, 10, OrderSide::Sell), Order::new(3, 0, 2, 12, OrderSide::Sell)]
    );
}

#[test]
fn process_events_without_fills_changes_nothing() {
    let mut service = RebootService::with_order_book(book());
    service.process_events(OrdersMatchedEvent { matches: vec![] });
    assert_eq!(service.order_book().buy_orders().len(), 1);
    assert_eq!(service.order_book().sell_orders().len(), 2);
}

#[test]
fn reboot_switch_follows_the_settings() {
    let config = ServerConfig::new("127.0.0.1:8080".to_string(), true, false);
    assert_eq!(config.address(), "127.0.0.1:8080");
    assert!(config.allow_reboot());
    assert!(!config.requires_auth());
    let service = haos_orderbook::server::reboot::RebootService::new(&config);
    assert!(service.is_enabled());
    assert!(!service.requires_auth());
    let config = ServerConfig::new("0.0.0.0:1".to_string(), false, true);
    let service = haos_orderbook::server::reboot::RebootService::new(&config);
    assert!(!service.is_enabled());
    assert!(service.requires_auth());
}

#[test]
fn resolve_config_fixes_the_ledger_endpoints() {
    assert_eq!(RPC_URL, "https://api.nitrogen.fhenix.zone");
    assert_eq!(RPC_URL_WS, "wss://api.nitrogen.fhenix.zone:8548");
    let config = resolve_config([5; 20], "key".to_string(), 77, "http://fhe".to_string());
    assert_eq!(config.chain.rpc_url, "https://api.nitrogen.fhenix.zone");
    assert_eq!(config.chain.rpc_url_ws, "wss://api.nitrogen.fhenix.zone:8548");
    assert_eq!(config.chain.orderbook_address, [5; 20]);
    assert_eq!(config.chain.private_key, "key");
    assert_eq!(config.chain.orderbook_start_block, 77);
    assert_eq!(config.fhe_decryption.api_url, "http://fhe");
}

#[test]
fn market_data_tells_every_subscriber_in_order() {
    let first = Recorder::new();
    let second = Recorder::new();
    let mut market_data = MarketData::new();
    market_data.publish_public_trade(1, 2, 3, 4);
    market_data.subscribe(&first);
    market_data.publish_public_trade(5, 6, 7, 8);
    market_data.subscribe(&second);
    market_data.publish_public_trade(9, 10, 11, 12);
    market_data.publish_order_book(9, &book());
    let t1 = TradeData { contract_id: 5, order_id: 6, volume: 7, price: 8 };
    let t2 = TradeData { contract_id: 9, order_id: 10, volume: 11, price: 12 };
    assert_eq!(*first.trades.borrow(), vec![t1, t2]);
    assert_eq!(*second.trades.borrow(), vec![t2]);
    assert_eq!(*first.books.borrow(), vec![(9, 1, 2)]);
    assert_eq!(*second.books.borrow(), vec![(9, 1, 2)]);
}

#[test]
fn owners_are_told_of_their_own_order() {
    let buyer = Recorder::new();
    let seller = Recorder::new();
    let trade =
        TradeExecution { contract_id: 1, buy_order_id: 20, sell_order_id: 30, volume: 4, price: 11 };
    notify_owners(&trade, &buyer, &seller);
    assert_eq!(*buyer.executions.borrow(), vec![(1, 20, 4, 11)]);
    assert_eq!(*seller.executions.borrow(), vec![(1, 30, 4, 11)]);
}

#[test]
fn market_data_publishes_a_trade_under_the_id_of_its_buy() {
    let subscriber = Recorder::new();
    let mut market_data = MarketData::new();
    market_data.subscribe(&subscriber);
    let trade =
        TradeExecution { contract_id: 1, buy_order_id: 20, sell_order_id: 30, volume: 4, price: 11 };
    market_data.publish_execution(&trade);
    assert_eq!(
        *subscriber.trades.borrow(),
        vec![TradeData { contract_id: 1, order_id: 20, volume: 4, price: 11 }]
    );
}
