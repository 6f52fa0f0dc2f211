//! Core scalar types. Money is never a float: prices are integer ticks,
//! quantities are integer lots.

use vstd::prelude::*;

verus! {

/// Price in ticks. The real price is `price_ticks * tick_size`, but the
/// engine never materializes that product: everything downstream of the
/// wire speaks ticks.
#[derive(Copy, Clone, PartialEq, Eq, PartialOrd, Ord, Debug, Hash, Structural)]
pub struct Price(pub i64);

/// Quantity in lots.
#[derive(Copy, Clone, PartialEq, Eq, PartialOrd, Ord, Debug, Hash, Structural)]
pub struct Qty(pub u64);

/// Globally unique order identity, assigned by the shell, not the engine.
#[derive(Copy, Clone, PartialEq, Eq, PartialOrd, Ord, Debug, Hash, Structural)]
pub struct OrderId(pub u64);

/// Participant identity. Used for self-trade prevention and cancel
/// ownership checks.
#[derive(Copy, Clone, PartialEq, Eq, Debug, Hash, Structural)]
pub struct TraderId(pub u32);

/// Sequence number of the input event. The engine's ONLY notion of time.
/// A wall-clock timestamp may ride along in the shell's journal for
/// humans, but the matcher never reads one.
#[derive(Copy, Clone, PartialEq, Eq, PartialOrd, Ord, Debug, Hash, Structural)]
pub struct SeqNo(pub u64);

/// The two sides of the book.
#[derive(Copy, Clone, PartialEq, Eq, Debug, Hash, Structural)]
pub enum Side {
    Bid,
    Ask,
}

impl Side {
    /// The side an order of this side trades against.
    #[verifier::allow_in_spec]
    pub fn opposite(self) -> Side
        returns
            (match self {
                Side::Bid => Side::Ask,
                Side::Ask => Side::Bid,
            }),
    {
        match self {
            Side::Bid => Side::Ask,
            Side::Ask => Side::Bid,
        }
    }

    /// Compact encoding for the arena's cold fields and the wire codec.
    #[verifier::allow_in_spec]
    pub fn to_u8(self) -> u8
        returns
            (match self {
                Side::Bid => 0u8,
                Side::Ask => 1u8,
            }),
    {
        match self {
            Side::Bid => 0,
            Side::Ask => 1,
        }
    }

    /// Inverse of [`Side::to_u8`]; any byte but zero reads as `Ask`.
    #[verifier::allow_in_spec]
    pub fn from_u8(v: u8) -> Side
        returns
            (if v == 0 {
                Side::Bid
            } else {
                Side::Ask
            }),
    {
        if v == 0 {
            Side::Bid
        } else {
            Side::Ask
        }
    }
}

/// How long an order may stay on the book.
#[derive(Copy, Clone, PartialEq, Eq, Debug, Hash, Structural)]
pub enum TimeInForce {
    /// Good-till-cancel: rest the unfilled remainder on the book.
    Gtc,
    /// Immediate-or-cancel: fill what crosses, cancel the rest.
    Ioc,
    /// Fill-or-kill: fill entirely or reject entirely, leaving the book
    /// untouched.
    Fok,
}

/// What happens when an aggressor meets a resting order of its own trader.
#[derive(Copy, Clone, PartialEq, Eq, Debug, Hash, Structural)]
pub enum SelfTradePrevention {
    /// Self-trades are allowed.
    Disabled,
    /// Cancel the resting order and keep matching.
    CancelResting,
    /// Cancel the incoming (aggressing) order.
    CancelAggressor,
    /// Cancel both the resting and the incoming order.
    CancelBoth,
}

impl SelfTradePrevention {
    /// Compact encoding for the arena's cold fields and the wire codec.
    #[verifier::allow_in_spec]
    pub fn to_u8(self) -> u8
        returns
            (match self {
                SelfTradePrevention::Disabled => 0u8,
                SelfTradePrevention::CancelResting => 1u8,
                SelfTradePrevention::CancelAggressor => 2u8,
                SelfTradePrevention::CancelBoth => 3u8,
            }),
    {
        match self {
            SelfTradePrevention::Disabled => 0,
            SelfTradePrevention::CancelResting => 1,
            SelfTradePrevention::CancelAggressor => 2,
            SelfTradePrevention::CancelBoth => 3,
        }
    }

    /// Inverse of [`SelfTradePrevention::to_u8`]; an unknown byte reads as
    /// `Disabled`.
    #[verifier::allow_in_spec]
    pub fn from_u8(v: u8) -> SelfTradePrevention
        returns
            (if v == 1 {
                SelfTradePrevention::CancelResting
            } else if v == 2 {
                SelfTradePrevention::CancelAggressor
            } else if v == 3 {
                SelfTradePrevention::CancelBoth
            } else {
                SelfTradePrevention::Disabled
            }),
    {
        match v {
            1 => SelfTradePrevention::CancelResting,
            2 => SelfTradePrevention::CancelAggressor,
            3 => SelfTradePrevention::CancelBoth,
            _ => SelfTradePrevention::Disabled,
        }
    }
}

/// The byte encoding of a side loses nothing.
pub proof fn law_side_byte_round_trip(s: Side)
    ensures
        Side::from_u8(s.to_u8()) == s,
{
}

/// The byte encoding of a self-trade rule loses nothing.
pub proof fn law_stp_byte_round_trip(s: SelfTradePrevention)
    ensures
        SelfTradePrevention::from_u8(s.to_u8()) == s,
{
}

/// The other side is the other one, and its other side is this one.
pub proof fn law_opposite(s: Side)
    ensures
        s.opposite() != s,
        s.opposite().opposite() == s,
{
}

/// Which byte stands for what, and what any byte is read as: a side is a bid at
/// zero and an ask otherwise; a self-trade rule that is not known is none.
pub proof fn law_bytes_of_the_types(v: u8)
    ensures
        Side::Bid.to_u8() == 0,
        Side::Ask.to_u8() == 1,
        Side::from_u8(v) == Side::Bid <==> v == 0,
        SelfTradePrevention::Disabled.to_u8() == 0,
        SelfTradePrevention::CancelResting.to_u8() == 1,
        SelfTradePrevention::CancelAggressor.to_u8() == 2,
        SelfTradePrevention::CancelBoth.to_u8() == 3,
        SelfTradePrevention::from_u8(v) == SelfTradePrevention::CancelResting <==> v == 1,
        SelfTradePrevention::from_u8(v) == SelfTradePrevention::CancelAggressor <==> v == 2,
        SelfTradePrevention::from_u8(v) == SelfTradePrevention::CancelBoth <==> v == 3,
{
}

} // verus!
