use haos_orderbook::matching_engine::{MatchingEngine, WorkerStep, WORKER_IDLE_MS};
use haos_orderbook::orderbook::order::OrderSide;
use haos_orderbook::orderbook::MatchedOrders;

#[test]
fn worker_idles_without_orders() {
    assert_eq!(WORKER_IDLE_MS, 10);
    let mut engine = MatchingEngine::new();
    assert!(matches!(engine.worker_step(), WorkerStep::Idle));
    assert!(matches!(engine.worker_step(), WorkerStep::Idle));
}

#[test]
fn worker_runs_one_cycle_per_burst_of_orders() {
    let mut engine = MatchingEngine::new();
    assert!(engine.add_order(1, 10, 11, OrderSide::Buy));
    assert!(engine.add_order(1, 10, 10, OrderSide::Sell));
    match engine.worker_step() {
        WorkerStep::Matched(cycle) => {
            assert!(cycle.worked);
            assert_eq!(cycle.touched, vec![1]);
            assert_eq!(cycle.matches.len(), 1);
            assert_eq!(
                cycle.matches[0].matched,
                MatchedOrders { taker_order_id: 1, maker_order_id: 0 }
            );
        }
        _ => panic!("a cycle was due"),
    }
    assert!(matches!(engine.worker_step(), WorkerStep::Idle));
}

#[test]
fn a_turned_away_order_wakes_nobody() {
    let mut engine = MatchingEngine::new();
    assert!(!engine.add_order(1, 0, 11, OrderSide::Buy));
    assert!(matches!(engine.worker_step(), WorkerStep::Idle));
}

#[test]
fn close_runs_a_last_cycle_once() {
    let mut engine = MatchingEngine::new();
    engine.add_order(4, 10, 11, OrderSide::Buy);
    let last = engine.close();
    assert!(last.is_some());
    let last = last.unwrap();
    assert!(last.worked);
    assert_eq!(last.touched, vec![4]);
    assert!(engine.get_order_management().order_book(4).is_some());
    assert!(engine.close().is_none());
    assert!(matches!(engine.worker_step(), WorkerStep::Stopped));
}

#[test]
fn close_of_an_idle_engine_finds_nothing_to_do() {
    let mut engine = MatchingEngine::new();
    let last = engine.close().unwrap();
    assert!(!last.worked);
    assert!(last.touched.is_empty());
}
