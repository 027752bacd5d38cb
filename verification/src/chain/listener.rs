//! The event pipeline: from raw logs to an ordered, gap-free sequence of
//! contract events.
//!
//! The pipeline decides which block ranges to fetch, decodes the logs that
//! come back, and says in which order the decoded events are handed on. The
//! fetching and the handing on are done by its caller.

use vstd::prelude::*;
use crate::chain::ContractEvent;
use crate::orderbook::MatchedOrders;

verus! {

/// The three kinds of event that the pipeline knows.
#[derive(Clone, Copy, Debug, PartialEq, Eq, Structural)]
pub enum EventKind {
    OrderPlaced,
    OrderFilled,
    OrdersMatched,
}

/// The signature hashes under which the contract emits its events.
#[derive(Clone, Copy, Debug)]
pub struct EventSignatures {
    pub order_placed: [u8; 32],
    pub order_filled: [u8; 32],
    pub orders_matched: [u8; 32],
}

/// A log as the ledger reports it: the first topic, which names the kind of
/// event, the event's arguments as 32-byte big-endian words one after the
/// other, and the block of the log.
#[derive(Clone, Debug)]
pub struct RawLog {
    pub topic0: Option<[u8; 32]>,
    pub data: Vec<u8>,
    pub block_number: Option<u64>,
}

/// Why a log of a known kind could not be decoded.
#[derive(Clone, Copy, Debug, PartialEq, Eq, Structural)]
pub enum DecodeError {
    /// The data does not hold exactly the words that the kind takes.
    MalformedPayload,
    /// An order id does not fit the 32 bits that the book gives to ids.
    IdOutOfRange,
}

/// A closed range of blocks to fetch.
#[derive(Clone, Copy, Debug, PartialEq, Eq, Structural)]
pub struct BlockRange {
    pub from_block: u64,
    pub to_block: u64,
}

/// The kind that a first topic names, if it names one. A log without topics
/// names none.
pub open spec fn kind_of(topic0: Option<[u8; 32]>, signatures: EventSignatures) -> Option<EventKind> {
    match topic0 {
        Some(topic) => if topic@ == signatures.order_placed@ {
            Some(EventKind::OrderPlaced)
        } else if topic@ == signatures.order_filled@ {
            Some(EventKind::OrderFilled)
        } else if topic@ == signatures.orders_matched@ {
            Some(EventKind::OrdersMatched)
        } else {
            None
        },
        None => None,
    }
}

/// The number that the low four bytes of the word at `index` spell, most
/// significant byte first.
pub open spec fn word_low(data: Seq<u8>, index: int) -> int {
    let at: int = 32 * index + 28;
    data[at] * 0x100_0000 + data[at + 1] * 0x1_0000 + data[at + 2] * 0x100 + data[at + 3]
}

/// Whether the word at `index` is below 2^32: its upper 28 bytes are zero.
pub open spec fn word_is_small(data: Seq<u8>, index: int) -> bool {
    forall|k: int| 32 * index <= k < 32 * index + 28 ==> data[k] == 0
}

/// What a log decodes to. A log of no known kind is passed over. A log of a
/// known kind must hold exactly its words, one order id for a placed or
/// filled order and taker and maker for a match, and each id must fit 32
/// bits. A log that tells no block counts as of block 0.
pub open spec fn decoded(log: RawLog, signatures: EventSignatures) -> Result<
    Option<ContractEvent>,
    DecodeError,
> {
    let block = match log.block_number {
        Some(n) => n,
        None => 0,
    };
    match kind_of(log.topic0, signatures) {
        None => Ok(None),
        Some(EventKind::OrdersMatched) => if log.data@.len() != 64 {
            Err(DecodeError::MalformedPayload)
        } else if !word_is_small(log.data@, 0) || !word_is_small(log.data@, 1) {
            Err(DecodeError::IdOutOfRange)
        } else {
            Ok(
                Some(
                    ContractEvent::OrdersMatched(
                        word_low(log.data@, 0) as u32,
                        word_low(log.data@, 1) as u32,
                        block,
                    ),
                ),
            )
        },
        Some(_) => if log.data@.len() != 32 {
            Err(DecodeError::MalformedPayload)
        } else if !word_is_small(log.data@, 0) {
            Err(DecodeError::IdOutOfRange)
        } else {
            Ok(Some(ContractEvent::OrderUpdated(word_low(log.data@, 0) as u32, block)))
        },
    }
}

/// Whether two topics are the same.
fn same_topic(a: &[u8; 32], b: &[u8; 32]) -> (same: bool)
    ensures
        same == (a@ == b@),
{
    let mut i: usize = 0;
    while i < 32
        invariant
            0 <= i <= 32,
            forall|k: int| 0 <= k < i ==> a@[k] == b@[k],
        decreases 32 - i,
    {
        if a[i] != b[i] {
            return false;
        }
        i += 1;
    }
    proof {
        assert(a@ =~= b@);
    }
    true
}

/// Tells the kind of event that a first topic names.
pub fn classify(topic0: &Option<[u8; 32]>, signatures: &EventSignatures) -> (kind: Option<EventKind>)
    ensures
        kind == kind_of(*topic0, *signatures),
{
    match topic0 {
        Some(topic) => {
            if same_topic(topic, &signatures.order_placed) {
                Some(EventKind::OrderPlaced)
            } else if same_topic(topic, &signatures.order_filled) {
                Some(EventKind::OrderFilled)
            } else if same_topic(topic, &signatures.orders_matched) {
                Some(EventKind::OrdersMatched)
            } else {
                None
            }
        },
        None => None,
    }
}

/// Reads the order id that the word at `index` holds.
fn read_id(data: &Vec<u8>, index: usize) -> (id: Result<u32, DecodeError>)
    requires
        index < 2,
        32 * (index + 1) <= data@.len(),
    ensures
        id == if word_is_small(data@, index as int) {
            Ok::<u32, DecodeError>(word_low(data@, index as int) as u32)
        } else {
            Err::<u32, DecodeError>(DecodeError::IdOutOfRange)
        },
        word_low(data@, index as int) <= u32::MAX,
{
    let start: usize = 32 * index;
    let mut k: usize = 0;
    while k < 28
        invariant
            0 <= k <= 28,
            start == 32 * index,
            start + 32 <= data@.len(),
            forall|m: int| start <= m < start + k ==> data@[m] == 0,
        decreases 28 - k,
    {
        if data[start + k] != 0 {
            return Err(DecodeError::IdOutOfRange);
        }
        k += 1;
    }
    let b0: u32 = data[start + 28] as u32;
    let b1: u32 = data[start + 29] as u32;
    let b2: u32 = data[start + 30] as u32;
    let b3: u32 = data[start + 31] as u32;
    Ok(b0 * 0x100_0000 + b1 * 0x1_0000 + b2 * 0x100 + b3)
}

/// Decodes one log.
pub fn extract_order_from_log(log: &RawLog, signatures: &EventSignatures) -> (event: Result<
    Option<ContractEvent>,
    DecodeError,
>)
    ensures
        event == decoded(*log, *signatures),
{
    let block_number: u64 = match log.block_number {
        Some(n) => n,
        None => 0,
    };
    match classify(&log.topic0, signatures) {
        None => Ok(None),
        Some(EventKind::OrdersMatched) => {
            if log.data.len() != 64 {
                return Err(DecodeError::MalformedPayload);
            }
            let taker = read_id(&log.data, 0);
            let maker = read_id(&log.data, 1);
            match (taker, maker) {
                (Ok(taker_id), Ok(maker_id)) => Ok(
                    Some(ContractEvent::OrdersMatched(taker_id, maker_id, block_number)),
                ),
                _ => Err(DecodeError::IdOutOfRange),
            }
        },
        Some(_) => {
            if log.data.len() != 32 {
                return Err(DecodeError::MalformedPayload);
            }
            match read_id(&log.data, 0) {
                Ok(id) => Ok(Some(ContractEvent::OrderUpdated(id, block_number))),
                Err(e) => Err(e),
            }
        },
    }
}

/// What a run of logs decodes to: the events of the logs of known kinds, in
/// the order of the logs, or the error of the first log that cannot be
/// decoded.
pub open spec fn decoded_all(logs: Seq<RawLog>, signatures: EventSignatures) -> Result<
    Seq<ContractEvent>,
    DecodeError,
>
    decreases logs.len(),
{
    if logs.len() == 0 {
        Ok(Seq::empty())
    } else {
        match decoded_all(logs.drop_last(), signatures) {
            Err(e) => Err(e),
            Ok(events) => match decoded(logs.last(), signatures) {
                Err(e) => Err(e),
                Ok(Some(event)) => Ok(events.push(event)),
                Ok(None) => Ok(events),
            },
        }
    }
}

/// Decodes the logs that a range query brought, in their order. Logs of no
/// known kind are passed over; the first log of a known kind that cannot be
/// decoded fails the whole run.
pub fn decode_logs(logs: &Vec<RawLog>, signatures: &EventSignatures) -> (events: Result<
    Vec<ContractEvent>,
    DecodeError,
>)
    ensures
        match decoded_all(logs@, *signatures) {
            Ok(expected) => events matches Ok(found) && found@ == expected,
            Err(e) => events == Err::<Vec<ContractEvent>, DecodeError>(e),
        },
{
    let mut events: Vec<ContractEvent> = Vec::new();
    let mut i: usize = 0;
    proof {
        assert(logs@.take(0) =~= Seq::<RawLog>::empty());
    }
    while i < logs.len()
        invariant
            0 <= i <= logs.len(),
            decoded_all(logs@.take(i as int), *signatures) == Ok::<Seq<ContractEvent>, DecodeError>(
                events@,
            ),
        decreases logs.len() - i,
    {
        proof {
            assert(logs@.take(i + 1).drop_last() =~= logs@.take(i as int));
            assert(logs@.take(i + 1).last() == logs@[i as int]);
        }
        match extract_order_from_log(&logs[i], signatures) {
            Ok(Some(event)) => {
                events.push(event);
            },
            Ok(None) => {},
            Err(e) => {
                proof {
                    lemma_decoding_fails_on(logs@, *signatures, i + 1);
                }
                return Err(e);
            },
        }
        i += 1;
    }
    proof {
        assert(logs@.take(i as int) =~= logs@);
    }
    Ok(events)
}

/// A run of logs whose first `n` fail to decode fails as a whole, with the
/// same error.
pub proof fn lemma_decoding_fails_on(logs: Seq<RawLog>, signatures: EventSignatures, n: int)
    requires
        0 <= n <= logs.len(),
        decoded_all(logs.take(n), signatures) is Err,
    ensures
        decoded_all(logs, signatures) == decoded_all(logs.take(n), signatures),
    decreases logs.len(),
{
    if n == logs.len() {
        assert(logs.take(n) =~= logs);
    } else {
        assert(logs.drop_last().take(n) =~= logs.take(n));
        lemma_decoding_fails_on(logs.drop_last(), signatures, n);
    }
}

/// How many of the logs are of a known kind.
pub open spec fn known_logs(logs: Seq<RawLog>, signatures: EventSignatures) -> nat
    decreases logs.len(),
{
    if logs.len() == 0 {
        0
    } else {
        known_logs(logs.drop_last(), signatures) + if kind_of(logs.last().topic0, signatures)
            is Some {
            1nat
        } else {
            0nat
        }
    }
}

/// A run of logs that decodes gives one event for each log of a known kind:
/// none is lost and none comes twice.
pub proof fn lemma_one_event_per_known_log(logs: Seq<RawLog>, signatures: EventSignatures)
    ensures
        decoded_all(logs, signatures) matches Ok(events) ==> events.len() == known_logs(
            logs,
            signatures,
        ),
    decreases logs.len(),
{
    if logs.len() > 0 {
        lemma_one_event_per_known_log(logs.drop_last(), signatures);
    }
}

/// The settled pairs among the events of a batch, in the order of the
/// events.
pub open spec fn matched_in(events: Seq<ContractEvent>) -> Seq<MatchedOrders>
    decreases events.len(),
{
    if events.len() == 0 {
        Seq::empty()
    } else {
        let before = matched_in(events.drop_last());
        match events.last() {
            ContractEvent::OrdersMatched(taker, maker, _) => before.push(
                MatchedOrders { taker_order_id: taker, maker_order_id: maker },
            ),
            ContractEvent::OrderUpdated(_, _) => before,
        }
    }
}

/// The order updates among the events of a batch, each an order id with its
/// block, in the order of the events.
pub open spec fn updates_in(events: Seq<ContractEvent>) -> Seq<(u32, u64)>
    decreases events.len(),
{
    if events.len() == 0 {
        Seq::empty()
    } else {
        let before = updates_in(events.drop_last());
        match events.last() {
            ContractEvent::OrderUpdated(id, block) => before.push((id, block)),
            ContractEvent::OrdersMatched(_, _, _) => before,
        }
    }
}

/// One step in handing a batch to the handlers.
#[derive(Clone, Debug)]
pub enum DeliveryStep {
    /// A settled pair, to be handed to every handler.
    Matched(MatchedOrders),
    /// The order updates of the whole batch, to be handed to every handler
    /// together.
    Orders(Vec<(u32, u64)>),
}

/// The steps are the delivery of the events: first each settled pair, one
/// step each, in the order of the events; then, as the last step, all order
/// updates together, also when there is none. So the book sees what a
/// settlement did before it is asked to look at the newest orders.
pub open spec fn delivers(steps: Seq<DeliveryStep>, events: Seq<ContractEvent>) -> bool {
    let pairs = matched_in(events);
    &&& steps.len() == pairs.len() + 1
    &&& forall|i: int| 0 <= i < pairs.len() ==> #[trigger] steps[i] == DeliveryStep::Matched(pairs[i])
    &&& steps[pairs.len() as int] matches DeliveryStep::Orders(batch) && batch@ == updates_in(
        events,
    )
}

/// Every event of a batch is handed on exactly once: as a settled pair or
/// as an order update.
pub proof fn lemma_delivered_once(events: Seq<ContractEvent>)
    ensures
        matched_in(events).len() + updates_in(events).len() == events.len(),
    decreases events.len(),
{
    if events.len() > 0 {
        lemma_delivered_once(events.drop_last());
    }
}

/// Puts the events of a batch into the order of their delivery. The steps
/// are to be taken one after the other, each for all handlers before the
/// next.
pub fn handle_orders(events: &Vec<ContractEvent>) -> (steps: Vec<DeliveryStep>)
    ensures
        delivers(steps@, events@),
{
    let mut steps: Vec<DeliveryStep> = Vec::new();
    let mut orders: Vec<(u32, u64)> = Vec::new();
    let mut i: usize = 0;
    proof {
        assert(events@.take(0) =~= Seq::<ContractEvent>::empty());
    }
    while i < events.len()
        invariant
            0 <= i <= events.len(),
            steps@.len() == matched_in(events@.take(i as int)).len(),
            forall|k: int|
                0 <= k < steps@.len() ==> #[trigger] steps@[k] == DeliveryStep::Matched(
                    matched_in(events@.take(i as int))[k],
                ),
            orders@ == updates_in(events@.take(i as int)),
        decreases events.len() - i,
    {
        proof {
            assert(events@.take(i + 1).drop_last() =~= events@.take(i as int));
            assert(events@.take(i + 1).last() == events@[i as int]);
        }
        match events[i] {
            ContractEvent::OrdersMatched(taker, maker, _) => {
                steps.push(
                    DeliveryStep::Matched(
                        MatchedOrders { taker_order_id: taker, maker_order_id: maker },
                    ),
                );
            },
            ContractEvent::OrderUpdated(id, block) => {
                orders.push((id, block));
            },
        }
        i += 1;
    }
    proof {
        assert(events@.take(i as int) =~= events@);
    }
    steps.push(DeliveryStep::Orders(orders));
    steps
}

/// The mathematical model of a listener.
pub struct ListenerView {
    /// The address of the contract whose logs are read.
    pub address: Seq<u8>,
    /// The first block to read.
    pub start_block: u64,
    /// The last block whose events have been fetched, if any has.
    pub latest_block: Option<u64>,
}

impl ListenerView {
    /// The first block that has not been fetched yet.
    pub open spec fn next_block(self) -> int {
        match self.latest_block {
            Some(latest) => latest + 1,
            None => self.start_block as int,
        }
    }

    /// The range to fetch when the ledger is seen at `block`: everything
    /// from the first block not yet fetched up to `block`, or nothing if
    /// `block` has been fetched already or lies before the start.
    pub open spec fn range_for(self, block: u64) -> Option<BlockRange> {
        if block >= self.next_block() {
            Some(BlockRange { from_block: self.next_block() as u64, to_block: block })
        } else {
            None
        }
    }

    /// The listener after the range due for `block` has been fetched: the
    /// blocks up to `block` count as fetched. Where no range is due, nothing
    /// changes.
    pub open spec fn after_fetched(self, block: u64) -> ListenerView {
        if block >= self.next_block() {
            ListenerView { latest_block: Some(block), ..self }
        } else {
            self
        }
    }
}

/// One sight of the ledger: the block at which it was seen, and whether the
/// range that was due for it has been fetched and recorded.
pub struct Attempt {
    pub block: u64,
    pub fetched: bool,
}

/// The listener after one sight of the ledger. Only a fetch that succeeded
/// moves it.
pub open spec fn after_attempt(v: ListenerView, attempt: Attempt) -> ListenerView {
    if attempt.fetched {
        v.after_fetched(attempt.block)
    } else {
        v
    }
}

/// The listener after a run of sights of the ledger.
pub open spec fn after_attempts(v: ListenerView, attempts: Seq<Attempt>) -> ListenerView
    decreases attempts.len(),
{
    if attempts.len() == 0 {
        v
    } else {
        after_attempt(after_attempts(v, attempts.drop_last()), attempts.last())
    }
}

/// The ranges that were fetched in a run of sights of the ledger, in their
/// order.
pub open spec fn ranges_fetched(v: ListenerView, attempts: Seq<Attempt>) -> Seq<BlockRange>
    decreases attempts.len(),
{
    if attempts.len() == 0 {
        Seq::empty()
    } else {
        let before = ranges_fetched(v, attempts.drop_last());
        match after_attempts(v, attempts.drop_last()).range_for(attempts.last().block) {
            Some(range) => if attempts.last().fetched {
                before.push(range)
            } else {
                before
            },
            None => before,
        }
    }
}

/// The ranges lie end to end from block `from` up to the block before `to`:
/// none is empty, the first starts at `from`, each next one starts right
/// behind the one before it, and the last ends right before `to`.
pub open spec fn tiles(ranges: Seq<BlockRange>, from: int, to: int) -> bool {
    &&& forall|k: int| 0 <= k < ranges.len() ==> (#[trigger] ranges[k]).from_block <= ranges[k].to_block
    &&& ranges.len() == 0 ==> from == to
    &&& ranges.len() > 0 ==> ranges[0].from_block == from && ranges.last().to_block + 1 == to
    &&& forall|k: int|
        0 <= k < ranges.len() - 1 ==> (#[trigger] ranges[k]).to_block + 1 == ranges[k + 1].from_block
}

/// Whether a range holds a block.
pub open spec fn covers(range: BlockRange, block: int) -> bool {
    range.from_block <= block <= range.to_block
}

/// Gap-free replay: however the ledger is seen, at the head first and then
/// at one live notification after the other, late, early or twice, and
/// whichever of the fetches fail, the ranges that were fetched lie end to end
/// from the first block that was not fetched before up to the last block
/// fetched.
pub proof fn lemma_gap_free(v: ListenerView, attempts: Seq<Attempt>)
    ensures
        tiles(
            ranges_fetched(v, attempts),
            v.next_block(),
            after_attempts(v, attempts).next_block(),
        ),
    decreases attempts.len(),
{
    if attempts.len() > 0 {
        lemma_gap_free(v, attempts.drop_last());
        let before = ranges_fetched(v, attempts.drop_last());
        let mid = after_attempts(v, attempts.drop_last());
        match mid.range_for(attempts.last().block) {
            Some(range) => {
                if attempts.last().fetched {
                    let now = before.push(range);
                    assert forall|k: int| 0 <= k < now.len() - 1 implies (
                    #[trigger] now[k]).to_block + 1 == now[k + 1].from_block by {
                        if k < before.len() - 1 {
                            assert(now[k] == before[k]);
                            assert(now[k + 1] == before[k + 1]);
                        } else {
                            assert(now[k] == before.last());
                        }
                    }
                    assert forall|k: int| 0 <= k < now.len() implies (
                    #[trigger] now[k]).from_block <= now[k].to_block by {
                        if k < before.len() {
                            assert(now[k] == before[k]);
                        }
                    }
                    if before.len() > 0 {
                        assert(now[0] == before[0]);
                    }
                }
            },
            None => {},
        }
    }
}

/// A span whose fetch failed is asked for again: the failure leaves the
/// listener where it was, and the range due at the next sight of the ledger
/// starts where the failed one started.
pub proof fn lemma_failed_fetch_is_asked_again(v: ListenerView, failed: Attempt, next: u64)
    requires
        !failed.fetched,
        v.range_for(failed.block) is Some,
        next >= failed.block,
    ensures
        after_attempt(v, failed) == v,
        after_attempt(v, failed).range_for(next) == Some(
            BlockRange { from_block: v.range_for(failed.block).unwrap().from_block, to_block: next },
        ),
{
}

/// Of ranges that lie end to end, an earlier one ends before a later one
/// starts.
pub proof fn lemma_tiles_in_order(ranges: Seq<BlockRange>, from: int, to: int, a: int, b: int)
    requires
        tiles(ranges, from, to),
        0 <= a < b < ranges.len(),
    ensures
        ranges[a].to_block < ranges[b].from_block,
    decreases b - a,
{
    if b > a + 1 {
        lemma_tiles_in_order(ranges, from, to, a, b - 1);
        assert(ranges[b - 1].to_block + 1 == ranges[b].from_block);
        assert(ranges[b - 1].from_block <= ranges[b - 1].to_block);
    } else {
        assert(ranges[a].to_block + 1 == ranges[a + 1].from_block);
    }
}

/// Ranges that lie end to end from `from` up to the block before `to` hold
/// each block between the two exactly once, and no other block.
pub proof fn lemma_tiles_cover_once(ranges: Seq<BlockRange>, from: int, to: int, block: int)
    requires
        tiles(ranges, from, to),
    ensures
        from <= block < to ==> exists|k: int|
            0 <= k < ranges.len() && covers(#[trigger] ranges[k], block),
        forall|k: int|
            0 <= k < ranges.len() && covers(#[trigger] ranges[k], block) ==> from <= block < to,
        forall|a: int, b: int|
            0 <= a < ranges.len() && 0 <= b < ranges.len() && covers(#[trigger] ranges[a], block)
                && covers(#[trigger] ranges[b], block) ==> a == b,
    decreases ranges.len(),
{
    assert forall|a: int, b: int|
        0 <= a < ranges.len() && 0 <= b < ranges.len() && covers(#[trigger] ranges[a], block)
            && covers(#[trigger] ranges[b], block) implies a == b by {
        if a < b {
            lemma_tiles_in_order(ranges, from, to, a, b);
        } else if b < a {
            lemma_tiles_in_order(ranges, from, to, b, a);
        }
    }
    assert forall|k: int| 0 <= k < ranges.len() && covers(#[trigger] ranges[k], block) implies from
        <= block < to by {
        if k > 0 {
            lemma_tiles_in_order(ranges, from, to, 0, k);
        }
        if k < ranges.len() - 1 {
            lemma_tiles_in_order(ranges, from, to, k, ranges.len() - 1);
        }
    }
    if from <= block < to {
        let last = ranges.last();
        if block >= last.from_block {
            assert(covers(ranges[ranges.len() - 1], block));
        } else {
            let rest = ranges.drop_last();
            assert forall|k: int| 0 <= k < rest.len() implies (#[trigger] rest[k]).from_block
                <= rest[k].to_block by {
                assert(rest[k] == ranges[k]);
            }
            assert forall|k: int| 0 <= k < rest.len() - 1 implies (#[trigger] rest[k]).to_block + 1
                == rest[k + 1].from_block by {
                assert(rest[k] == ranges[k]);
                assert(rest[k + 1] == ranges[k + 1]);
            }
            if rest.len() > 0 {
                assert(rest[0] == ranges[0]);
                assert(rest.last() == ranges[ranges.len() - 2]);
                assert(ranges[ranges.len() - 2].to_block + 1 == ranges[ranges.len() - 2
                    + 1].from_block);
            }
            lemma_tiles_cover_once(rest, from, last.from_block as int, block);
            let k = choose|k: int| 0 <= k < rest.len() && covers(#[trigger] rest[k], block);
            assert(ranges[k] == rest[k]);
        }
    }
}

/// Collects what a listener needs before it can run.
pub struct OrderListenerBuilder<H> {
    address: Option<[u8; 20]>,
    handlers: Vec<H>,
    start_block: u64,
}

/// Why a listener could not be built.
#[derive(Clone, Copy, Debug, PartialEq, Eq, Structural)]
pub enum BuildError {
    /// No contract address was given.
    MissingAddress,
}

impl<H> OrderListenerBuilder<H> {
    /// The address given so far.
    pub closed spec fn address(&self) -> Option<[u8; 20]> {
        self.address
    }

    /// The handlers given so far, in the order in which they were given.
    pub closed spec fn handlers(&self) -> Seq<H> {
        self.handlers@
    }

    /// The first block to read.
    pub closed spec fn start_block(&self) -> u64 {
        self.start_block
    }

    /// A builder without address and handlers that starts at block 1.
    pub fn new() -> (builder: Self)
        ensures
            builder.address() is None,
            builder.handlers() == Seq::<H>::empty(),
            builder.start_block() == 1,
    {
        OrderListenerBuilder { address: None, handlers: Vec::new(), start_block: 1 }
    }

    /// Sets the address of the contract.
    pub fn with_address(self, address: [u8; 20]) -> (builder: Self)
        ensures
            builder.address() == Some(address),
            builder.handlers() == self.handlers(),
            builder.start_block() == self.start_block(),
    {
        let mut builder = self;
        builder.address = Some(address);
        builder
    }

    /// Sets the first block to read.
    pub fn with_start_block(self, block: u64) -> (builder: Self)
        ensures
            builder.address() == self.address(),
            builder.handlers() == self.handlers(),
            builder.start_block() == block,
    {
        let mut builder = self;
        builder.start_block = block;
        builder
    }

    /// Adds a handler behind those given so far.
    pub fn with_handler(self, handler: H) -> (builder: Self)
        ensures
            builder.address() == self.address(),
            builder.handlers() == self.handlers().push(handler),
            builder.start_block() == self.start_block(),
    {
        let mut builder = self;
        builder.handlers.push(handler);
        builder
    }

    /// Builds the listener. This fails exactly if no address was given.
    pub fn build(self) -> (listener: Result<OrderListener<H>, BuildError>)
        ensures
            match self.address() {
                Some(address) => listener matches Ok(built) && built@ == (ListenerView {
                    address: address@,
                    start_block: self.start_block(),
                    latest_block: None,
                }) && built.handlers() == self.handlers(),
                None => listener matches Err(e) && e == BuildError::MissingAddress,
            },
    {
        match self.address {
            Some(address) => Ok(
                OrderListener {
                    address,
                    handlers: self.handlers,
                    start_block: self.start_block,
                    latest_block: None,
                },
            ),
            None => Err(BuildError::MissingAddress),
        }
    }
}

/// The state of the pipeline: which contract it reads, from where, and how
/// far it has come.
pub struct OrderListener<H> {
    address: [u8; 20],
    handlers: Vec<H>,
    start_block: u64,
    latest_block: Option<u64>,
}

impl<H> View for OrderListener<H> {
    type V = ListenerView;

    closed spec fn view(&self) -> ListenerView {
        ListenerView {
            address: self.address@,
            start_block: self.start_block,
            latest_block: self.latest_block,
        }
    }
}

impl<H> OrderListener<H> {
    /// The handlers of the listener, in the order in which they were given.
    pub closed spec fn handlers(&self) -> Seq<H> {
        self.handlers@
    }

    /// A builder for a listener.
    pub fn builder() -> (builder: OrderListenerBuilder<H>)
        ensures
            builder.address() is None,
            builder.handlers() == Seq::<H>::empty(),
            builder.start_block() == 1,
    {
        OrderListenerBuilder::new()
    }

    /// The address of the contract whose logs are read.
    pub fn contract_address(&self) -> (address: [u8; 20])
        ensures
            address@ == self@.address,
    {
        self.address
    }

    /// Takes the handlers out of the listener, which keeps none.
    pub fn take_handlers(&mut self) -> (handlers: Vec<H>)
        ensures
            handlers@ == old(self).handlers(),
            final(self).handlers() == Seq::<H>::empty(),
            final(self)@ == old(self)@,
    {
        let mut handlers: Vec<H> = Vec::new();
        handlers.append(&mut self.handlers);
        handlers
    }

    /// One step of listening: the ledger has been seen at `block`, be it the
    /// head at the start or a live notification. The answer is the range of
    /// blocks to fetch before anything of `block` itself is processed: from
    /// the first block not yet fetched up to `block`, so that no block is
    /// skipped, however far ahead the notification is. A block that has been
    /// fetched already, or that lies before the start, asks for nothing.
    /// The listener itself stays where it is until the fetch is recorded
    /// with `fetched`: after a fetch that failed, the same blocks are due
    /// again.
    pub fn listen(&self, block: u64) -> (range: Option<BlockRange>)
        ensures
            range == self@.range_for(block),
    {
        let next: u64 = match self.latest_block {
            Some(latest) => {
                if block <= latest {
                    return None;
                }
                latest + 1
            },
            None => {
                if block < self.start_block {
                    return None;
                }
                self.start_block
            },
        };
        Some(BlockRange { from_block: next, to_block: block })
    }

    /// Records that a range has been fetched. The range counts only if it is
    /// the one that is due for its last block: then the blocks up to that
    /// block count as fetched from here on. Any other range, one that starts
    /// too late or too early or that was recorded before, changes nothing.
    /// The answer tells whether the range counted.
    pub fn fetched(&mut self, range: BlockRange) -> (recorded: bool)
        ensures
            recorded == (old(self)@.range_for(range.to_block) == Some(range)),
            recorded ==> final(self)@ == old(self)@.after_fetched(range.to_block),
            !recorded ==> final(self)@ == old(self)@,
            final(self).handlers() == old(self).handlers(),
    {
        match self.listen(range.to_block) {
            Some(due) => {
                if due.from_block == range.from_block {
                    self.latest_block = Some(range.to_block);
                    true
                } else {
                    false
                }
            },
            None => false,
        }
    }
}

} // verus!
