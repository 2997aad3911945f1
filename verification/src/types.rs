//! Plain data records: assets, sides, orders, trades, errors, and the
//! configuration bounds that the exchange enforces.

use vstd::prelude::*;

verus! {

/// Smallest accepted limit price.
pub const MIN_PRICE: u32 = 1;
/// Largest accepted limit price.
pub const MAX_PRICE: u32 = 20000;
/// Smallest accepted order volume.
pub const MIN_VOLUME: u32 = 1;
/// Largest accepted order volume.
pub const MAX_VOLUME: u32 = 20000;

/// The tradable instruments; one exchange instance is bound to one of them.
#[derive(Debug, Clone, Copy, PartialEq, Eq, Structural)]
pub enum Asset {
    DRESSING,
    RYE,
    SWISS,
    PASTRAMI,
}

/// Which side of the book an order belongs to.
#[derive(Debug, Clone, Copy, PartialEq, Eq, Structural)]
pub enum Side {
    BUY,
    SELL,
}

/// An executed match between one resting and one incoming order.
#[derive(Debug, Clone, Copy, PartialEq, Eq, Structural)]
pub struct Trade {
    pub asset: Asset,
    pub buyer_id: u32,
    pub seller_id: u32,
    pub price: u32,
    pub volume: u32,
    pub id: u32,
}

/// A limit order; while resting, `volume` is the remaining unfilled quantity.
#[derive(Debug, Clone, Copy, PartialEq, Eq, Structural)]
pub struct Order {
    pub asset: Asset,
    pub side: Side,
    pub user_id: u32,
    pub price: u32,
    pub volume: u32,
    pub order_id: u32,
}

/// Why a call was rejected; every rejection leaves the exchange unchanged.
#[derive(Debug, Clone, Copy, PartialEq, Eq, Structural)]
pub enum OrderError {
    InvalidPrice,
    InvalidVolume,
    AssetMismatch,
    DuplicateOrderId,
    OrderNotFound,
}

/// How much of a placed order came to rest in its own book.
#[derive(Debug, Clone, Copy, PartialEq, Eq, Structural)]
pub enum RestingState {
    NotRested,
    PartiallyRested(u32),
    FullyRested(u32),
}

/// The result of a successful placement: the trades it produced, in emission
/// order, and what was left resting.
#[derive(Debug)]
pub struct PlacementOutcome {
    pub trades: Vec<Trade>,
    pub resting: RestingState,
}

/// The side whose resting orders an incoming `taker` order matches against.
pub open spec fn opposite(taker: Side) -> Side {
    match taker {
        Side::BUY => Side::SELL,
        Side::SELL => Side::BUY,
    }
}

/// Whether a price is inside the accepted closed bounds.
pub open spec fn price_ok(p: u32) -> bool {
    MIN_PRICE <= p <= MAX_PRICE
}

/// Whether a volume is inside the accepted closed bounds.
pub open spec fn volume_ok(v: u32) -> bool {
    MIN_VOLUME <= v <= MAX_VOLUME
}

/// Whether an incoming order with limit price `limit` crosses a resting price
/// `p` on the opposite book.
pub open spec fn crosses(taker: Side, limit: u32, p: u32) -> bool {
    match taker {
        Side::BUY => p <= limit,
        Side::SELL => p >= limit,
    }
}

} // verus!
