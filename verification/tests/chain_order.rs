use haos_orderbook::chain::order::{
    order_from_response, settlement_receipt, FHEOrderMetadataReader, MetadataError,
    OrderResponse, SettlementError, DEFAULT_API_URL,
};
use haos_orderbook::orderbook::order::{Order, OrderSide};

#[test]
fn response_with_side_false_is_a_buy_of_instrument_zero() {
    let response = OrderResponse { side: false, amount: 100, price: 11 };
    assert_eq!(order_from_response(1, &response), Ok(Order::new(1, 0, 100, 11, OrderSide::Buy)));
}

#[test]
fn response_with_side_true_is_a_sell() {
    let response = OrderResponse { side: true, amount: 0, price: 0 };
    assert_eq!(order_from_response(9, &response), Ok(Order::new(9, 0, 0, 0, OrderSide::Sell)));
}

#[test]
fn response_at_the_limits_fits() {
    let response = OrderResponse { side: true, amount: u32::MAX as u64, price: u32::MAX as u64 };
    assert_eq!(
        order_from_response(u32::MAX, &response),
        Ok(Order::new(u32::MAX, 0, u32::MAX, u32::MAX, OrderSide::Sell))
    );
}

#[test]
fn amount_above_32_bits_is_out_of_range() {
    let response = OrderResponse { side: true, amount: u32::MAX as u64 + 1, price: 1 };
    assert_eq!(order_from_response(1, &response), Err(MetadataError::VolumeOutOfRange));
    let response = OrderResponse { side: true, amount: u64::MAX, price: u64::MAX };
    assert_eq!(order_from_response(1, &response), Err(MetadataError::VolumeOutOfRange));
}

#[test]
fn price_above_32_bits_is_out_of_range() {
    let response = OrderResponse { side: false, amount: 1, price: u32::MAX as u64 + 1 };
    assert_eq!(order_from_response(1, &response), Err(MetadataError::PriceOutOfRange));
}

#[test]
fn receipt_with_success_gives_the_hash() {
    assert_eq!(settlement_receipt(true, [0xab; 32]), Ok([0xab; 32]));
}

#[test]
fn receipt_without_success_is_a_revert() {
    assert_eq!(settlement_receipt(false, [0xab; 32]), Err(SettlementError::Reverted));
}

#[test]
fn reader_asks_the_default_service() {
    assert_eq!(DEFAULT_API_URL, "http://localhost:3000");
    let reader = FHEOrderMetadataReader::new();
    assert_eq!(reader.order_url(42), "http://localhost:3000/order/42");
}

#[test]
fn order_url_writes_the_id_in_decimal() {
    let reader = FHEOrderMetadataReader::with_api_url("https://fhe.example".to_string());
    assert_eq!(reader.order_url(0), "https://fhe.example/order/0");
    assert_eq!(reader.order_url(7), "https://fhe.example/order/7");
    assert_eq!(reader.order_url(10), "https://fhe.example/order/10");
    assert_eq!(reader.order_url(1009), "https://fhe.example/order/1009");
    assert_eq!(reader.order_url(u32::MAX), "https://fhe.example/order/4294967295");
}
