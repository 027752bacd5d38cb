use haos_orderbook::chain::listener::{
    classify, decode_logs, extract_order_from_log, handle_orders, BlockRange, BuildError,
    DecodeError, DeliveryStep, EventKind, EventSignatures, OrderListener, OrderListenerBuilder,
    RawLog,
};
use haos_orderbook::chain::ContractEvent;
use haos_orderbook::orderbook::MatchedOrders;

fn signatures() -> EventSignatures {
    EventSignatures {
        order_placed: [0x11; 32],
        order_filled: [0x22; 32],
        orders_matched: [0x33; 32],
    }
}

fn word(id: u32) -> Vec<u8> {
    let mut bytes = vec![0u8; 28];
    bytes.extend_from_slice(&id.to_be_bytes());
    bytes
}

fn log(topic: u8, data: Vec<u8>, block: Option<u64>) -> RawLog {
    RawLog { topic0: Some([topic; 32]), data, block_number: block }
}

fn listener(start_block: u64) -> OrderListener<u8> {
    OrderListener::<u8>::builder()
        .with_address([7; 20])
        .with_start_block(start_block)
        .build()
        .unwrap()
}

#[test]
fn classify_knows_three_kinds() {
    let s = signatures();
    assert_eq!(classify(&Some([0x11; 32]), &s), Some(EventKind::OrderPlaced));
    assert_eq!(classify(&Some([0x22; 32]), &s), Some(EventKind::OrderFilled));
    assert_eq!(classify(&Some([0x33; 32]), &s), Some(EventKind::OrdersMatched));
    assert_eq!(classify(&Some([0x44; 32]), &s), None);
    assert_eq!(classify(&None, &s), None);
}

#[test]
fn classify_compares_every_byte() {
    let s = signatures();
    let mut topic = [0x11u8; 32];
    topic[31] = 0x12;
    assert_eq!(classify(&Some(topic), &s), None);
    let mut topic = [0x11u8; 32];
    topic[0] = 0x10;
    assert_eq!(classify(&Some(topic), &s), None);
}

#[test]
fn placed_and_filled_decode_to_an_order_update() {
    let s = signatures();
    assert_eq!(
        extract_order_from_log(&log(0x11, word(5), Some(40)), &s),
        Ok(Some(ContractEvent::OrderUpdated(5, 40)))
    );
    assert_eq!(
        extract_order_from_log(&log(0x22, word(u32::MAX), Some(41)), &s),
        Ok(Some(ContractEvent::OrderUpdated(u32::MAX, 41)))
    );
}

#[test]
fn id_is_read_most_significant_byte_first() {
    let s = signatures();
    let mut data = vec![0u8; 32];
    data[28] = 0x01;
    data[29] = 0x02;
    data[30] = 0x03;
    data[31] = 0x04;
    assert_eq!(
        extract_order_from_log(&log(0x11, data, Some(1)), &s),
        Ok(Some(ContractEvent::OrderUpdated(0x0102_0304, 1)))
    );
}

#[test]
fn matched_decodes_to_taker_then_maker() {
    let s = signatures();
    let mut data = word(9);
    data.extend(word(4));
    assert_eq!(
        extract_order_from_log(&log(0x33, data, Some(77)), &s),
        Ok(Some(ContractEvent::OrdersMatched(9, 4, 77)))
    );
}

#[test]
fn a_log_without_block_counts_as_block_zero() {
    let s = signatures();
    assert_eq!(
        extract_order_from_log(&log(0x11, word(5), None), &s),
        Ok(Some(ContractEvent::OrderUpdated(5, 0)))
    );
}

#[test]
fn unknown_kinds_are_passed_over() {
    let s = signatures();
    assert_eq!(extract_order_from_log(&log(0x44, word(5), Some(1)), &s), Ok(None));
    assert_eq!(extract_order_from_log(&log(0x44, vec![1, 2, 3], Some(1)), &s), Ok(None));
    let no_topic = RawLog { topic0: None, data: word(5), block_number: Some(1) };
    assert_eq!(extract_order_from_log(&no_topic, &s), Ok(None));
}

#[test]
fn wrong_length_is_a_malformed_payload() {
    let s = signatures();
    assert_eq!(
        extract_order_from_log(&log(0x11, vec![], Some(1)), &s),
        Err(DecodeError::MalformedPayload)
    );
    assert_eq!(
        extract_order_from_log(&log(0x22, vec![0; 31], Some(1)), &s),
        Err(DecodeError::MalformedPayload)
    );
    assert_eq!(
        extract_order_from_log(&log(0x11, vec![0; 64], Some(1)), &s),
        Err(DecodeError::MalformedPayload)
    );
    assert_eq!(
        extract_order_from_log(&log(0x33, word(1), Some(1)), &s),
        Err(DecodeError::MalformedPayload)
    );
    assert_eq!(
        extract_order_from_log(&log(0x33, vec![0xff; 65], Some(1)), &s),
        Err(DecodeError::MalformedPayload)
    );
}

#[test]
fn an_id_above_32_bits_is_out_of_range() {
    let s = signatures();
    let mut data = word(1);
    data[27] = 1;
    assert_eq!(
        extract_order_from_log(&log(0x11, data, Some(1)), &s),
        Err(DecodeError::IdOutOfRange)
    );
    let mut data = word(1);
    data[0] = 0x80;
    assert_eq!(
        extract_order_from_log(&log(0x22, data, Some(1)), &s),
        Err(DecodeError::IdOutOfRange)
    );
    let mut data = word(1);
    let mut maker = word(2);
    maker[10] = 9;
    data.extend(maker);
    assert_eq!(
        extract_order_from_log(&log(0x33, data, Some(1)), &s),
        Err(DecodeError::IdOutOfRange)
    );
    let mut taker = word(1);
    taker[3] = 9;
    taker.extend(word(2));
    assert_eq!(
        extract_order_from_log(&log(0x33, taker, Some(1)), &s),
        Err(DecodeError::IdOutOfRange)
    );
}

#[test]
fn decode_logs_keeps_known_events_in_order() {
    let s = signatures();
    let mut pair = word(2);
    pair.extend(word(1));
    let logs = vec![
        log(0x11, word(1), Some(10)),
        log(0x44, vec![9, 9], Some(10)),
        log(0x33, pair, Some(11)),
        log(0x22, word(2), Some(12)),
    ];
    assert_eq!(
        decode_logs(&logs, &s),
        Ok(vec![
            ContractEvent::OrderUpdated(1, 10),
            ContractEvent::OrdersMatched(2, 1, 11),
            ContractEvent::OrderUpdated(2, 12),
        ])
    );
    assert_eq!(decode_logs(&vec![], &s), Ok(vec![]));
}

#[test]
fn decode_logs_fails_with_the_first_error() {
    let s = signatures();
    let mut big = word(1);
    big[0] = 1;
    let logs = vec![
        log(0x11, word(1), Some(10)),
        log(0x11, big, Some(10)),
        log(0x22, vec![], Some(12)),
    ];
    assert_eq!(decode_logs(&logs, &s), Err(DecodeError::IdOutOfRange));
    let logs = vec![log(0x22, vec![], Some(12)), log(0x11, word(1), Some(10))];
    assert_eq!(decode_logs(&logs, &s), Err(DecodeError::MalformedPayload));
}

fn matched_step(step: &DeliveryStep) -> Option<MatchedOrders> {
    match step {
        DeliveryStep::Matched(pair) => Some(*pair),
        DeliveryStep::Orders(_) => None,
    }
}

fn orders_step(step: &DeliveryStep) -> Option<Vec<(u32, u64)>> {
    match step {
        DeliveryStep::Matched(_) => None,
        DeliveryStep::Orders(batch) => Some(batch.clone()),
    }
}

/// Sees the ledger at `block` and records the fetch of the range that is due.
fn fetch(listener: &mut OrderListener<u8>, block: u64) -> Option<BlockRange> {
    let range = listener.listen(block);
    if let Some(range) = range {
        assert!(listener.fetched(range));
    }
    range
}

#[test]
fn delivery_puts_settled_pairs_before_the_order_updates() {
    let events = vec![
        ContractEvent::OrderUpdated(1, 10),
        ContractEvent::OrdersMatched(2, 1, 10),
        ContractEvent::OrderUpdated(2, 11),
        ContractEvent::OrdersMatched(4, 3, 11),
        ContractEvent::OrderUpdated(1, 12),
    ];
    let steps = handle_orders(&events);
    assert_eq!(steps.len(), 3);
    assert_eq!(
        matched_step(&steps[0]),
        Some(MatchedOrders { taker_order_id: 2, maker_order_id: 1 })
    );
    assert_eq!(
        matched_step(&steps[1]),
        Some(MatchedOrders { taker_order_id: 4, maker_order_id: 3 })
    );
    assert_eq!(orders_step(&steps[2]), Some(vec![(1, 10), (2, 11), (1, 12)]));
}

#[test]
fn delivery_of_pairs_alone_ends_with_an_empty_batch_of_updates() {
    let events = vec![ContractEvent::OrdersMatched(2, 1, 10)];
    let steps = handle_orders(&events);
    assert_eq!(steps.len(), 2);
    assert_eq!(
        matched_step(&steps[0]),
        Some(MatchedOrders { taker_order_id: 2, maker_order_id: 1 })
    );
    assert_eq!(orders_step(&steps[1]), Some(vec![]));
}

#[test]
fn delivery_of_an_empty_batch_is_one_empty_batch_of_updates() {
    let steps = handle_orders(&vec![]);
    assert_eq!(steps.len(), 1);
    assert_eq!(orders_step(&steps[0]), Some(vec![]));
}

#[test]
fn builder_needs_an_address() {
    let built = OrderListenerBuilder::<u8>::new().with_start_block(5).build();
    assert!(matches!(built, Err(BuildError::MissingAddress)));
    let built = OrderListener::<u8>::builder().with_handler(1).build();
    assert!(matches!(built, Err(BuildError::MissingAddress)));
}

#[test]
fn builder_keeps_address_and_handlers() {
    let mut built = OrderListenerBuilder::<u8>::new()
        .with_handler(3)
        .with_address([9; 20])
        .with_handler(4)
        .build()
        .unwrap();
    assert_eq!(built.contract_address(), [9; 20]);
    assert_eq!(built.take_handlers(), vec![3, 4]);
    assert_eq!(built.take_handlers(), Vec::<u8>::new());
}

#[test]
fn builder_starts_at_block_one_by_default() {
    let mut built = OrderListenerBuilder::<u8>::new().with_address([9; 20]).build().unwrap();
    assert_eq!(fetch(&mut built, 0), None);
    assert_eq!(fetch(&mut built, 3), Some(BlockRange { from_block: 1, to_block: 3 }));
}

#[test]
fn startup_replays_from_the_start_block_to_the_head() {
    let mut listener = listener(100);
    assert_eq!(fetch(&mut listener, 250), Some(BlockRange { from_block: 100, to_block: 250 }));
    assert_eq!(fetch(&mut listener, 251), Some(BlockRange { from_block: 251, to_block: 251 }));
}

#[test]
fn a_head_before_the_start_block_asks_for_nothing() {
    let mut listener = listener(100);
    assert_eq!(fetch(&mut listener, 99), None);
    assert_eq!(fetch(&mut listener, 100), Some(BlockRange { from_block: 100, to_block: 100 }));
}

#[test]
fn a_notification_five_ahead_fetches_the_whole_gap_once() {
    let p = 1_000;
    let mut listener = listener(1);
    fetch(&mut listener, p);
    assert_eq!(fetch(&mut listener, p + 5), Some(BlockRange { from_block: p + 1, to_block: p + 5 }));
    assert_eq!(fetch(&mut listener, p + 5), None);
    assert_eq!(fetch(&mut listener, p + 3), None);
    assert_eq!(fetch(&mut listener, p + 6), Some(BlockRange { from_block: p + 6, to_block: p + 6 }));
}

#[test]
fn ranges_lie_end_to_end_whatever_the_notifications() {
    let mut listener = listener(10);
    let seen = [12u64, 11, 12, 20, 5, 21, 21, 40, 39];
    let mut ranges = Vec::new();
    for block in seen {
        if let Some(range) = fetch(&mut listener, block) {
            ranges.push(range);
        }
    }
    assert_eq!(
        ranges,
        vec![
            BlockRange { from_block: 10, to_block: 12 },
            BlockRange { from_block: 13, to_block: 20 },
            BlockRange { from_block: 21, to_block: 21 },
            BlockRange { from_block: 22, to_block: 40 },
        ]
    );
}

#[test]
fn the_last_block_of_all_can_be_fetched() {
    let mut listener = listener(0);
    assert_eq!(fetch(&mut listener, u64::MAX - 1), Some(BlockRange { from_block: 0, to_block: u64::MAX - 1 }));
    assert_eq!(
        fetch(&mut listener, u64::MAX),
        Some(BlockRange { from_block: u64::MAX, to_block: u64::MAX })
    );
    assert_eq!(fetch(&mut listener, u64::MAX), None);
}

#[test]
fn listening_alone_moves_nothing() {
    let listener = listener(100);
    assert_eq!(listener.listen(250), Some(BlockRange { from_block: 100, to_block: 250 }));
    assert_eq!(listener.listen(250), Some(BlockRange { from_block: 100, to_block: 250 }));
}

#[test]
fn a_span_whose_fetch_failed_is_asked_for_again() {
    let mut listener = listener(100);
    assert_eq!(listener.listen(250), Some(BlockRange { from_block: 100, to_block: 250 }));
    assert_eq!(listener.listen(251), Some(BlockRange { from_block: 100, to_block: 251 }));
    assert!(listener.fetched(BlockRange { from_block: 100, to_block: 251 }));
    assert_eq!(listener.listen(251), None);
    assert_eq!(listener.listen(260), Some(BlockRange { from_block: 252, to_block: 260 }));
    assert_eq!(listener.listen(255), Some(BlockRange { from_block: 252, to_block: 255 }));
    assert!(listener.fetched(BlockRange { from_block: 252, to_block: 255 }));
    assert_eq!(listener.listen(260), Some(BlockRange { from_block: 256, to_block: 260 }));
}

#[test]
fn only_the_range_that_is_due_is_recorded() {
    let mut listener = listener(100);
    assert!(!listener.fetched(BlockRange { from_block: 101, to_block: 250 }));
    assert!(!listener.fetched(BlockRange { from_block: 99, to_block: 250 }));
    assert!(!listener.fetched(BlockRange { from_block: 100, to_block: 99 }));
    assert_eq!(listener.listen(250), Some(BlockRange { from_block: 100, to_block: 250 }));
    assert!(listener.fetched(BlockRange { from_block: 100, to_block: 250 }));
    assert!(!listener.fetched(BlockRange { from_block: 100, to_block: 250 }));
    assert!(!listener.fetched(BlockRange { from_block: 252, to_block: 260 }));
    assert!(!listener.fetched(BlockRange { from_block: 200, to_block: 260 }));
    assert_eq!(listener.listen(260), Some(BlockRange { from_block: 251, to_block: 260 }));
}
