//! Orders, trades and the identifiers that tie them to agents.

use vstd::prelude::*;
use crate::config::AgentType;
use crate::ids::{random_uuid, UUID_LAYOUT_MASK, UUID_V4_LAYOUT};

verus! {

/// Unique identifier of an order: the 128-bit value of a UUID.
#[derive(Debug, Clone, Copy, PartialEq, Eq, Structural, Hash)]
pub struct OrderId(pub u128);

impl OrderId {
    /// A fresh random (version 4) identifier.
    pub fn new() -> (r: OrderId)
        ensures
            r.0 & UUID_LAYOUT_MASK == UUID_V4_LAYOUT,
    {
        OrderId(random_uuid())
    }
}

/// Unique identifier of an agent: the 128-bit value of a UUID.
#[derive(Debug, Clone, Copy, PartialEq, Eq, Structural, Hash)]
pub struct AgentId(pub u128);

impl AgentId {
    /// A fresh random (version 4) identifier.
    pub fn new() -> (r: AgentId)
        ensures
            r.0 & UUID_LAYOUT_MASK == UUID_V4_LAYOUT,
    {
        AgentId(random_uuid())
    }
}

/// Order side.
#[derive(Debug, Clone, Copy, PartialEq, Eq, Structural, Hash)]
pub enum Side {
    Buy,
    Sell,
}

/// Order type. A limit price is held in whole ticks of the book's tick size.
#[derive(Debug, Clone, Copy, PartialEq, Eq, Structural)]
pub enum OrderType {
    Market,
    Limit { price: u64 },
}

/// An order submitted by an agent. `timestamp` is in microseconds since the
/// Unix epoch.
#[derive(Debug, Clone)]
pub struct Order {
    pub order_id: OrderId,
    pub agent_id: AgentId,
    pub agent_type: AgentType,
    pub symbol: String,
    pub side: Side,
    pub order_type: OrderType,
    pub quantity: u64,
    pub timestamp: i64,
    pub tick: u64,
}

impl Order {
    /// The same order with another quantity.
    pub open spec fn with_quantity(self, q: u64) -> Order {
        Order { quantity: q, ..self }
    }

    /// A copy of this order that carries quantity `q`.
    pub fn copy_with_quantity(&self, q: u64) -> (r: Order)
        ensures
            r == self.with_quantity(q),
    {
        Order {
            order_id: self.order_id,
            agent_id: self.agent_id,
            agent_type: self.agent_type,
            symbol: self.symbol.clone(),
            side: self.side,
            order_type: self.order_type,
            quantity: q,
            timestamp: self.timestamp,
            tick: self.tick,
        }
    }
}

/// A trade resulting from matched orders. The price is in whole ticks of the
/// book's tick size; `timestamp` is in microseconds since the Unix epoch.
#[derive(Debug, Clone)]
pub struct Trade {
    pub trade_id: u128,
    pub symbol: String,
    pub price: u64,
    pub quantity: u64,
    pub buy_order_id: OrderId,
    pub sell_order_id: OrderId,
    pub buyer_id: AgentId,
    pub seller_id: AgentId,
    pub buyer_type: AgentType,
    pub seller_type: AgentType,
    pub timestamp: i64,
    pub tick: u64,
}

/// The signed position change that `agent` books for a trade of `quantity`
/// units between the buying agent `buyer` and the selling agent `seller`:
/// plus the quantity for the buyer, minus it for the seller, both for an
/// agent that traded with itself (nothing), and nothing for an agent that
/// took no part.
pub open spec fn fill_delta(buyer: AgentId, seller: AgentId, quantity: u64, agent: AgentId) -> int {
    (if buyer == agent { quantity as int } else { 0 }) - (if seller == agent { quantity as int } else { 0 })
}

/// `fill_delta`, computed. The quantity must fit a signed position.
pub fn signed_fill_quantity(buyer: AgentId, seller: AgentId, quantity: u64, agent: AgentId) -> (r: i64)
    requires
        quantity <= i64::MAX,
    ensures
        r as int == fill_delta(buyer, seller, quantity, agent),
{
    let q = quantity as i64;
    let bought: i64 = if buyer == agent { q } else { 0 };
    let sold: i64 = if seller == agent { q } else { 0 };
    bought - sold
}

impl Trade {
    /// The signed position change `agent` books for this trade.
    pub fn quantity_delta_for(&self, agent: AgentId) -> (r: i64)
        requires
            self.quantity <= i64::MAX,
        ensures
            r as int == fill_delta(self.buyer_id, self.seller_id, self.quantity, agent),
    {
        signed_fill_quantity(self.buyer_id, self.seller_id, self.quantity, agent)
    }
}

} // verus!
