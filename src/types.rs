use vstd::prelude::*;

verus! {

/// The kind of a transaction record; also the lifecycle status of an order.
#[allow(non_camel_case_types)]
#[derive(Clone, Copy, Debug, PartialEq, Eq, Structural)]
pub enum TransactionType {
    /// A new order.
    NEW,
    /// A cancellation of a resting order.
    CAN,
    /// A flush of the whole book.
    FLU,
}

/// The kind of an output event.
#[allow(non_camel_case_types)]
#[derive(Clone, Copy, Debug, PartialEq, Eq, Structural)]
pub enum OutputStatus {
    /// The transaction was accepted.
    ACK,
    /// The transaction was rejected.
    REJ,
    /// The best price or the quantity at the best price changed on one side.
    BES,
    /// A trade was executed.
    TRA,
}

/// The side of an order: a bid or an ask.
#[allow(non_camel_case_types)]
#[derive(Clone, Copy, Debug, PartialEq, Eq, Structural)]
pub enum Side {
    BUY,
    SELL,
}

/// Whether an order executes at any price or only up to a limit.
#[allow(non_camel_case_types)]
#[derive(Clone, Copy, Debug, PartialEq, Eq, Structural)]
pub enum OrderType {
    MARKET_ORDER,
    LIMIT_ORDER,
}

/// An order's primary key: `(client, order_id)`.
pub type OrderPrimaryKey = (u64, u64);

/// A best price with the total quantity resting at that price.
#[derive(Clone, Copy, Debug, PartialEq, Eq, Structural)]
pub struct Quote {
    pub price: u64,
    pub quantity: u128,
}

/// One output event of the book.
#[derive(Clone, Copy, Debug, PartialEq, Eq, Structural)]
pub enum Event {
    /// An order or a cancellation was accepted.
    Ack { client: u64, order_id: u64 },
    /// An order or a cancellation was rejected.
    Rej { client: u64, order_id: u64 },
    /// A flush was accepted.
    Flushed,
    /// The top of one side changed; `None` when that side became empty.
    Best { side: Side, quote: Option<Quote> },
    /// A trade between a resting order and an incoming order.
    Trade {
        resting_client: u64,
        resting_order_id: u64,
        incoming_client: u64,
        incoming_order_id: u64,
        price: u64,
        quantity: u64,
    },
}

/// The side opposite to `s`.
pub open spec fn opposite_spec(s: Side) -> Side {
    match s {
        Side::BUY => Side::SELL,
        Side::SELL => Side::BUY,
    }
}

impl Side {
    /// The side opposite to this one.
    pub fn opposite(&self) -> (r: Side)
        ensures
            r == opposite_spec(*self),
    {
        match self {
            Side::BUY => Side::SELL,
            Side::SELL => Side::BUY,
        }
    }
}

impl Event {
    /// The kind of this event.
    pub fn status(&self) -> (r: OutputStatus)
        ensures
            r == self.status_spec(),
    {
        match self {
            Event::Ack { .. } | Event::Flushed => OutputStatus::ACK,
            Event::Rej { .. } => OutputStatus::REJ,
            Event::Best { .. } => OutputStatus::BES,
            Event::Trade { .. } => OutputStatus::TRA,
        }
    }

    pub open spec fn status_spec(&self) -> OutputStatus {
        match self {
            Event::Ack { .. } | Event::Flushed => OutputStatus::ACK,
            Event::Rej { .. } => OutputStatus::REJ,
            Event::Best { .. } => OutputStatus::BES,
            Event::Trade { .. } => OutputStatus::TRA,
        }
    }
}

} // verus!
