//! The engine's entire API surface: one input enum in, one output enum out.
//!
//! Every `OutputEvent` carries the `SeqNo` of the input that caused it, which
//! makes output logs self-describing and trivially diffable between two
//! engines.

use crate::types::{OrderId, Price, Qty, SelfTradePrevention, SeqNo, Side, TimeInForce, TraderId};
use vstd::prelude::*;

verus! {

/// One instruction to the book.
#[derive(Copy, Clone, PartialEq, Eq, Debug, Hash, Structural)]
pub enum InputEvent {
    New {
        seq: SeqNo,
        order_id: OrderId,
        trader: TraderId,
        side: Side,
        price: Price,
        qty: Qty,
        tif: TimeInForce,
        stp: SelfTradePrevention,
    },
    Cancel {
        seq: SeqNo,
        order_id: OrderId,
        /// Must match the resting order's trader or the cancel is rejected.
        trader: TraderId,
    },
    /// Modify = cancel + new. It ALWAYS loses time priority, including a
    /// modify to the same price. This is a deliberate design decision
    /// (it removes the queue-position-preserving special cases that
    /// riddle real venues' modify semantics), not a limitation.
    Modify {
        seq: SeqNo,
        order_id: OrderId,
        trader: TraderId,
        new_price: Price,
        new_qty: Qty,
    },
}

impl InputEvent {
    /// The sequence number of the event.
    #[verifier::allow_in_spec]
    pub fn seq(&self) -> SeqNo
        returns
            (match *self {
                InputEvent::New { seq, .. } => seq,
                InputEvent::Cancel { seq, .. } => seq,
                InputEvent::Modify { seq, .. } => seq,
            }),
    {
        match *self {
            InputEvent::New { seq, .. } => seq,
            InputEvent::Cancel { seq, .. } => seq,
            InputEvent::Modify { seq, .. } => seq,
        }
    }
}

/// One consequence of an instruction.
#[allow(inconsistent_fields)]
#[derive(Copy, Clone, PartialEq, Eq, Debug, Hash, Structural)]
pub enum OutputEvent {
    Ack { seq: SeqNo, order_id: OrderId },
    Fill {
        seq: SeqNo,
        taker: OrderId,
        maker: OrderId,
        /// ALWAYS the resting (maker) order's price. The aggressor
        /// receives price improvement.
        price: Price,
        qty: Qty,
        taker_side: Side,
    },
    Cancelled { seq: SeqNo, order_id: OrderId, remaining: Qty, reason: CancelReason },
    Rejected { seq: SeqNo, order_id: OrderId, reason: RejectReason },
}

impl OutputEvent {
    /// The sequence number of the input that caused this event.
    pub open spec fn cause(&self) -> SeqNo {
        match *self {
            OutputEvent::Ack { seq, .. } => seq,
            OutputEvent::Fill { seq, .. } => seq,
            OutputEvent::Cancelled { seq, .. } => seq,
            OutputEvent::Rejected { seq, .. } => seq,
        }
    }
}

/// Why an order left the book without trading.
#[derive(Copy, Clone, PartialEq, Eq, Debug, Hash, Structural)]
pub enum CancelReason {
    /// User-requested cancel (or the cancel leg of a modify).
    User,
    /// Unfilled remainder of an immediate-or-cancel order.
    Ioc,
    SelfTradePrevention,
}

/// Why an instruction was refused.
#[derive(Copy, Clone, PartialEq, Eq, Debug, Hash, Structural)]
pub enum RejectReason {
    DuplicateOrderId,
    UnknownOrderId,
    /// Off the price grid: below min, above max, or not a multiple of the
    /// tick size.
    PriceOutOfBounds,
    ZeroQty,
    FokUnfillable,
    /// The book is at capacity. Rejected up front, before matching, so
    /// both engines agree without having to predict whether the order
    /// would have rested.
    ArenaFull,
    WrongTrader,
}

/// The number of an event is the one it was given.
pub proof fn law_event_number(ev: InputEvent, out: OutputEvent)
    ensures
        ev matches InputEvent::New { seq, .. } ==> ev.seq() == seq,
        ev matches InputEvent::Cancel { seq, .. } ==> ev.seq() == seq,
        ev matches InputEvent::Modify { seq, .. } ==> ev.seq() == seq,
        out matches OutputEvent::Ack { seq, .. } ==> out.cause() == seq,
        out matches OutputEvent::Fill { seq, .. } ==> out.cause() == seq,
        out matches OutputEvent::Cancelled { seq, .. } ==> out.cause() == seq,
        out matches OutputEvent::Rejected { seq, .. } ==> out.cause() == seq,
{
}

} // verus!
