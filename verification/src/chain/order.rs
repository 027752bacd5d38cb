//! Plain data exchanged with the metadata service and with the settlement
//! call, and the rules that turn it into orders and outcomes.

use vstd::prelude::*;
use vstd::string::StringExecFns;
use crate::orderbook::order::{Order, OrderSide};

verus! {

/// The address at which the metadata service is found unless another is
/// given.
pub const DEFAULT_API_URL: &'static str = "http://localhost:3000";

/// What the metadata service tells of an order.
#[derive(Clone, Copy, Debug, PartialEq, Eq, Structural)]
pub struct OrderResponse {
    /// `true` for a sell, `false` for a buy.
    pub side: bool,
    pub amount: u64,
    pub price: u64,
}

/// Why an answer of the metadata service gives no order.
#[derive(Clone, Copy, Debug, PartialEq, Eq, Structural)]
pub enum MetadataError {
    /// The amount does not fit the 32 bits of a volume.
    VolumeOutOfRange,
    /// The price does not fit the 32 bits of a price.
    PriceOutOfRange,
}

/// Why a settlement did not go through.
#[derive(Clone, Copy, Debug, PartialEq, Eq, Structural)]
pub enum SettlementError {
    /// The ledger took the transaction and reverted it.
    Reverted,
}

/// The order that an answer of the metadata service describes. The order
/// belongs to instrument 0, the one instrument of the ledger's contract.
pub open spec fn resolved(order_id: u32, response: OrderResponse) -> Result<Order, MetadataError> {
    if response.amount > u32::MAX {
        Err(MetadataError::VolumeOutOfRange)
    } else if response.price > u32::MAX {
        Err(MetadataError::PriceOutOfRange)
    } else {
        Ok(
            Order {
                id: order_id,
                contract_id: 0,
                volume: response.amount as u32,
                price: response.price as u32,
                side: if response.side {
                    OrderSide::Sell
                } else {
                    OrderSide::Buy
                },
            },
        )
    }
}

/// Makes the order that an answer of the metadata service describes.
pub fn order_from_response(order_id: u32, response: &OrderResponse) -> (order: Result<
    Order,
    MetadataError,
>)
    ensures
        order == resolved(order_id, *response),
{
    if response.amount > u32::MAX as u64 {
        return Err(MetadataError::VolumeOutOfRange);
    }
    if response.price > u32::MAX as u64 {
        return Err(MetadataError::PriceOutOfRange);
    }
    Ok(
        Order::new(
            order_id,
            0,
            response.amount as u32,
            response.price as u32,
            if response.side {
                OrderSide::Sell
            } else {
                OrderSide::Buy
            },
        ),
    )
}

/// What a settlement call came to, given the receipt of its transaction:
/// the transaction's hash if the ledger reports success, else an error.
pub fn settlement_receipt(status: bool, transaction_hash: [u8; 32]) -> (outcome: Result<
    [u8; 32],
    SettlementError,
>)
    ensures
        outcome == if status {
            Ok::<[u8; 32], SettlementError>(transaction_hash)
        } else {
            Err::<[u8; 32], SettlementError>(SettlementError::Reverted)
        },
{
    if status {
        Ok(transaction_hash)
    } else {
        Err(SettlementError::Reverted)
    }
}

/// The decimal digit of a number below ten.
pub open spec fn digit(d: nat) -> char {
    if d == 0 {
        '0'
    } else if d == 1 {
        '1'
    } else if d == 2 {
        '2'
    } else if d == 3 {
        '3'
    } else if d == 4 {
        '4'
    } else if d == 5 {
        '5'
    } else if d == 6 {
        '6'
    } else if d == 7 {
        '7'
    } else if d == 8 {
        '8'
    } else {
        '9'
    }
}

/// A number written in decimal, without leading zeros.
pub open spec fn decimal(n: nat) -> Seq<char>
    decreases n,
{
    if n < 10 {
        seq![digit(n)]
    } else {
        decimal(n / 10).push(digit(n % 10))
    }
}

/// The address under which the metadata service answers for an order: the
/// service's address, then `/order/`, then the order id in decimal.
pub open spec fn order_url_of(api_url: Seq<char>, order_id: u32) -> Seq<char> {
    api_url + "/order/"@ + decimal(order_id as nat)
}

/// `u32::to_string`: the number in decimal, without sign or leading zeros.
#[verifier::external_body]
fn decimal_string(n: u32) -> (digits: String)
    ensures
        digits@ == decimal(n as nat),
{
    n.to_string()
}

/// A reader of order metadata that asks the decryption service.
pub struct FHEOrderMetadataReader {
    api_url: String,
}

impl FHEOrderMetadataReader {
    /// The address of the service.
    pub closed spec fn api_url(&self) -> Seq<char> {
        self.api_url@
    }

    /// A reader that asks the service at `DEFAULT_API_URL`.
    pub fn new() -> (reader: FHEOrderMetadataReader)
        ensures
            reader.api_url() == DEFAULT_API_URL@,
    {
        FHEOrderMetadataReader { api_url: DEFAULT_API_URL.to_owned() }
    }

    /// A reader that asks the service at the given address.
    pub fn with_api_url(api_url: String) -> (reader: FHEOrderMetadataReader)
        ensures
            reader.api_url() == api_url@,
    {
        FHEOrderMetadataReader { api_url }
    }

    /// The address to ask for the metadata of an order.
    pub fn order_url(&self, order_id: u32) -> (url: String)
        ensures
            url@ == order_url_of(self.api_url(), order_id),
    {
        let mut url = self.api_url.clone();
        url.append("/order/");
        let digits = decimal_string(order_id);
        url.append(digits.as_str());
        url
    }
}

} // verus!
