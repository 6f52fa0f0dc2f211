//! Wire codec: fixed-size little-endian records for input and output
//! events. Fixed size keeps the journal seekable (event N lives at a
//! computable offset) and the encoder allocation-free.
//!
//! Decoding NEVER panics: malformed bytes produce `CodecError`, because
//! logs cross machine boundaries and the shell must survive corruption.

use crate::bytes::{from_le, get_le, law_le_round_trip, le, lemma_le_len, lemma_pow256, put_le};
use crate::events::{CancelReason, InputEvent, OutputEvent, RejectReason};
use crate::types::{OrderId, Price, Qty, SelfTradePrevention, SeqNo, Side, TimeInForce, TraderId};
use vstd::prelude::*;
use vstd::string::StringExecFns;

verus! {

/// The size of an input record.
pub const INPUT_RECORD: usize = 40;

/// The size of an output record.
pub const OUTPUT_RECORD: usize = 48;

/// Why a record could not be read.
#[derive(Debug, Clone, Copy, PartialEq, Eq)]
pub struct CodecError(pub &'static str);

impl CodecError {
    /// The error as a line of text.
    pub fn message(&self) -> (r: String)
        ensures
            r@ == "codec error: "@ + self.0@,
    {
        "codec error: ".to_owned().concat(self.0)
    }
}

/// The byte of a time in force.
pub open spec fn tif_byte(tif: TimeInForce) -> u8 {
    match tif {
        TimeInForce::Gtc => 0,
        TimeInForce::Ioc => 1,
        TimeInForce::Fok => 2,
    }
}

/// The byte of a cancel reason.
pub open spec fn cancel_byte(reason: CancelReason) -> u8 {
    match reason {
        CancelReason::User => 0,
        CancelReason::Ioc => 1,
        CancelReason::SelfTradePrevention => 2,
    }
}

/// The byte of a reject reason.
pub open spec fn reject_byte(reason: RejectReason) -> u8 {
    match reason {
        RejectReason::DuplicateOrderId => 0,
        RejectReason::UnknownOrderId => 1,
        RejectReason::PriceOutOfBounds => 2,
        RejectReason::ZeroQty => 3,
        RejectReason::FokUnfillable => 4,
        RejectReason::ArenaFull => 5,
        RejectReason::WrongTrader => 6,
    }
}

/// The fields of an input record, in order.
pub open spec fn input_fields(
    head: Seq<u8>,
    trader: u32,
    seq: u64,
    order_id: u64,
    price: u64,
    qty: u64,
) -> Seq<u8> {
    head + le(trader as nat, 4) + le(seq as nat, 8) + le(order_id as nat, 8) + le(price as nat, 8)
        + le(qty as nat, 8)
}

/// The record of an input event (40 bytes):
///
/// ```text
/// [0]      tag: 0=New 1=Cancel 2=Modify
/// [1]      side (New)            else 0
/// [2]      tif (New)             else 0
/// [3]      stp (New)             else 0
/// [4..8]   trader u32
/// [8..16]  seq u64
/// [16..24] order_id u64
/// [24..32] price/new_price i64   else 0
/// [32..40] qty/new_qty u64       else 0
/// ```
pub open spec fn input_record(ev: InputEvent) -> Seq<u8> {
    match ev {
        InputEvent::New { seq, order_id, trader, side, price, qty, tif, stp } => input_fields(
            seq![0u8, side.to_u8(), tif_byte(tif), stp.to_u8()],
            trader.0,
            seq.0,
            order_id.0,
            price.0 as u64,
            qty.0,
        ),
        InputEvent::Cancel { seq, order_id, trader } => input_fields(
            seq![1u8, 0, 0, 0],
            trader.0,
            seq.0,
            order_id.0,
            0,
            0,
        ),
        InputEvent::Modify { seq, order_id, trader, new_price, new_qty } => input_fields(
            seq![2u8, 0, 0, 0],
            trader.0,
            seq.0,
            order_id.0,
            new_price.0 as u64,
            new_qty.0,
        ),
    }
}

/// Write the fields of an input record.
fn put_input(
    out: &mut [u8; INPUT_RECORD],
    head: [u8; 4],
    trader: u32,
    seq: u64,
    order_id: u64,
    price: u64,
    qty: u64,
)
    ensures
        final(out)@ == input_fields(head@, trader, seq, order_id, price, qty),
{
    broadcast use lemma_le_len;

    out[0] = head[0];
    out[1] = head[1];
    out[2] = head[2];
    out[3] = head[3];
    put_le(out, 4, 4, trader as u64);
    let ghost a = out@;
    put_le(out, 8, 8, seq);
    let ghost b = out@;
    put_le(out, 16, 8, order_id);
    let ghost c = out@;
    put_le(out, 24, 8, price);
    let ghost d = out@;
    put_le(out, 32, 8, qty);
    proof {
        assert(out@.subrange(0, 4) =~= head@);
        assert(out@.subrange(4, 8) =~= a.subrange(4, 8));
        assert(out@.subrange(8, 16) =~= b.subrange(8, 16));
        assert(out@.subrange(16, 24) =~= c.subrange(16, 24));
        assert(out@.subrange(24, 32) =~= d.subrange(24, 32));
        assert(out@ =~= out@.subrange(0, 4) + out@.subrange(4, 8) + out@.subrange(8, 16)
            + out@.subrange(16, 24) + out@.subrange(24, 32) + out@.subrange(32, 40));
    }
}

/// Write the record of an input event.
pub fn encode_input(ev: &InputEvent, out: &mut [u8; INPUT_RECORD])
    ensures
        final(out)@ == input_record(*ev),
{
    match *ev {
        InputEvent::New { seq, order_id, trader, side, price, qty, tif, stp } => {
            let tif = match tif {
                TimeInForce::Gtc => 0,
                TimeInForce::Ioc => 1,
                TimeInForce::Fok => 2,
            };
            let head = [0, side.to_u8(), tif, stp.to_u8()];
            proof {
                assert(head@ =~= seq![0u8, side.to_u8(), tif, stp.to_u8()]);
            }
            put_input(out, head, trader.0, seq.0, order_id.0, price.0 as u64, qty.0);
        },
        InputEvent::Cancel { seq, order_id, trader } => {
            let head = [1u8, 0, 0, 0];
            proof {
                assert(head@ =~= seq![1u8, 0, 0, 0]);
            }
            put_input(out, head, trader.0, seq.0, order_id.0, 0, 0);
        },
        InputEvent::Modify { seq, order_id, trader, new_price, new_qty } => {
            let head = [2u8, 0, 0, 0];
            proof {
                assert(head@ =~= seq![2u8, 0, 0, 0]);
            }
            put_input(out, head, trader.0, seq.0, order_id.0, new_price.0 as u64, new_qty.0);
        },
    }
}

/// The number in the bytes from `at` on.
pub open spec fn number(b: Seq<u8>, at: int, n: int) -> nat {
    from_le(b.subrange(at, at + n))
}

/// What an input record says, or why it says nothing.
pub open spec fn decoded_input(b: Seq<u8>) -> Result<InputEvent, Seq<char>> {
    let seq = SeqNo(number(b, 8, 8) as u64);
    let order_id = OrderId(number(b, 16, 8) as u64);
    let trader = TraderId(number(b, 4, 4) as u32);
    let price = Price((number(b, 24, 8) as u64) as i64);
    let qty = Qty(number(b, 32, 8) as u64);
    if b[0] == 0 {
        if b[1] > 1 {
            Err("bad side"@)
        } else if b[2] > 2 {
            Err("bad tif"@)
        } else if b[3] > 3 {
            Err("bad stp"@)
        } else {
            Ok(
                InputEvent::New {
                    seq,
                    order_id,
                    trader,
                    side: Side::from_u8(b[1]),
                    price,
                    qty,
                    tif: if b[2] == 0 {
                        TimeInForce::Gtc
                    } else if b[2] == 1 {
                        TimeInForce::Ioc
                    } else {
                        TimeInForce::Fok
                    },
                    stp: SelfTradePrevention::from_u8(b[3]),
                },
            )
        }
    } else if b[0] == 1 {
        Ok(InputEvent::Cancel { seq, order_id, trader })
    } else if b[0] == 2 {
        Ok(InputEvent::Modify { seq, order_id, trader, new_price: price, new_qty: qty })
    } else {
        Err("bad input tag"@)
    }
}

/// Read an input record.
pub fn decode_input(b: &[u8; INPUT_RECORD]) -> (r: Result<InputEvent, CodecError>)
    ensures
        match r {
            Ok(ev) => decoded_input(b@) == Ok::<_, Seq<char>>(ev),
            Err(e) => decoded_input(b@) == Err::<InputEvent, _>(e.0@),
        },
{
    proof {
        lemma_pow256();
    }
    let all = b.as_slice();
    let seq = SeqNo(get_le(all, 8, 8));
    let order_id = OrderId(get_le(all, 16, 8));
    let trader = TraderId(get_le(all, 4, 4) as u32);
    let price = Price(get_le(all, 24, 8) as i64);
    let qty = Qty(get_le(all, 32, 8));
    match b[0] {
        0 => {
            let side = match b[1] {
                0 => Side::Bid,
                1 => Side::Ask,
                _ => return Err(CodecError("bad side")),
            };
            let tif = match b[2] {
                0 => TimeInForce::Gtc,
                1 => TimeInForce::Ioc,
                2 => TimeInForce::Fok,
                _ => return Err(CodecError("bad tif")),
            };
            let stp = match b[3] {
                0 => SelfTradePrevention::Disabled,
                1 => SelfTradePrevention::CancelResting,
                2 => SelfTradePrevention::CancelAggressor,
                3 => SelfTradePrevention::CancelBoth,
                _ => return Err(CodecError("bad stp")),
            };
            Ok(InputEvent::New { seq, order_id, trader, side, price, qty, tif, stp })
        },
        1 => Ok(InputEvent::Cancel { seq, order_id, trader }),
        2 => Ok(
            InputEvent::Modify { seq, order_id, trader, new_price: price, new_qty: qty },
        ),
        _ => Err(CodecError("bad input tag")),
    }
}

/// A price survives being written as eight bytes.
pub proof fn lemma_price_bits(p: i64)
    ensures
        (p as u64) as i64 == p,
{
    assert((p as u64) as i64 == p) by (bit_vector);
}

/// The fields of an input record can be read back.
pub(crate) proof fn lemma_input_fields(
    head: Seq<u8>,
    trader: u32,
    seq: u64,
    order_id: u64,
    price: u64,
    qty: u64,
)
    requires
        head.len() == 4,
    ensures
        ({
            let b = input_fields(head, trader, seq, order_id, price, qty);
            &&& b.len() == INPUT_RECORD
            &&& forall|i: int| 0 <= i < 4 ==> b[i] == head[i]
            &&& number(b, 4, 4) == trader
            &&& number(b, 8, 8) == seq
            &&& number(b, 16, 8) == order_id
            &&& number(b, 24, 8) == price
            &&& number(b, 32, 8) == qty
        }),
{
    broadcast use lemma_le_len;

    lemma_pow256();
    let b = input_fields(head, trader, seq, order_id, price, qty);
    assert(b.subrange(4, 8) =~= le(trader as nat, 4));
    assert(b.subrange(8, 16) =~= le(seq as nat, 8));
    assert(b.subrange(16, 24) =~= le(order_id as nat, 8));
    assert(b.subrange(24, 32) =~= le(price as nat, 8));
    assert(b.subrange(32, 40) =~= le(qty as nat, 8));
    law_le_round_trip(trader as nat, 4);
    law_le_round_trip(seq as nat, 8);
    law_le_round_trip(order_id as nat, 8);
    law_le_round_trip(price as nat, 8);
    law_le_round_trip(qty as nat, 8);
}

/// Decoding an encoded input event gives the event.
pub proof fn law_input_round_trip(ev: InputEvent)
    ensures
        input_record(ev).len() == INPUT_RECORD,
        decoded_input(input_record(ev)) == Ok::<_, Seq<char>>(ev),
{
    match ev {
        InputEvent::New { seq, order_id, trader, side, price, qty, tif, stp } => {
            lemma_price_bits(price.0);
            lemma_input_fields(
                seq![0u8, side.to_u8(), tif_byte(tif), stp.to_u8()],
                trader.0,
                seq.0,
                order_id.0,
                price.0 as u64,
                qty.0,
            );
        },
        InputEvent::Cancel { seq, order_id, trader } => {
            lemma_input_fields(seq![1u8, 0, 0, 0], trader.0, seq.0, order_id.0, 0, 0);
        },
        InputEvent::Modify { seq, order_id, trader, new_price, new_qty } => {
            lemma_price_bits(new_price.0);
            lemma_input_fields(
                seq![2u8, 0, 0, 0],
                trader.0,
                seq.0,
                order_id.0,
                new_price.0 as u64,
                new_qty.0,
            );
        },
    }
}

/// The fields of an output record, in order.
pub open spec fn output_fields(
    tag: u8,
    detail: u8,
    seq: u64,
    order_id: u64,
    maker: u64,
    price: u64,
    qty: u64,
) -> Seq<u8> {
    seq![tag, detail, 0, 0, 0, 0, 0, 0] + le(seq as nat, 8) + le(order_id as nat, 8) + le(
        maker as nat,
        8,
    ) + le(price as nat, 8) + le(qty as nat, 8)
}

/// The record of an output event (48 bytes):
///
/// ```text
/// [0]      tag: 0=Ack 1=Fill 2=Cancelled 3=Rejected
/// [1]      taker_side (Fill) / reason (Cancelled, Rejected)
/// [2..8]   reserved
/// [8..16]  seq u64
/// [16..24] order_id / taker u64
/// [24..32] maker u64 (Fill)     else 0
/// [32..40] price i64 (Fill)     else 0
/// [40..48] qty/remaining u64    else 0
/// ```
pub open spec fn output_record(ev: OutputEvent) -> Seq<u8> {
    match ev {
        OutputEvent::Ack { seq, order_id } => output_fields(0, 0, seq.0, order_id.0, 0, 0, 0),
        OutputEvent::Fill { seq, taker, maker, price, qty, taker_side } => output_fields(
            1,
            taker_side.to_u8(),
            seq.0,
            taker.0,
            maker.0,
            price.0 as u64,
            qty.0,
        ),
        OutputEvent::Cancelled { seq, order_id, remaining, reason } => output_fields(
            2,
            cancel_byte(reason),
            seq.0,
            order_id.0,
            0,
            0,
            remaining.0,
        ),
        OutputEvent::Rejected { seq, order_id, reason } => output_fields(
            3,
            reject_byte(reason),
            seq.0,
            order_id.0,
            0,
            0,
            0,
        ),
    }
}

/// Write the fields of an output record.
fn put_output(
    out: &mut [u8; OUTPUT_RECORD],
    tag: u8,
    detail: u8,
    seq: u64,
    order_id: u64,
    maker: u64,
    price: u64,
    qty: u64,
)
    ensures
        final(out)@ == output_fields(tag, detail, seq, order_id, maker, price, qty),
{
    broadcast use lemma_le_len;

    out[0] = tag;
    out[1] = detail;
    out[2] = 0;
    out[3] = 0;
    out[4] = 0;
    out[5] = 0;
    out[6] = 0;
    out[7] = 0;
    let ghost head = seq![tag, detail, 0, 0, 0, 0, 0, 0];
    put_le(out, 8, 8, seq);
    let ghost a = out@;
    put_le(out, 16, 8, order_id);
    let ghost b = out@;
    put_le(out, 24, 8, maker);
    let ghost c = out@;
    put_le(out, 32, 8, price);
    let ghost d = out@;
    put_le(out, 40, 8, qty);
    proof {
        assert(out@.subrange(0, 8) =~= head);
        assert(out@.subrange(8, 16) =~= a.subrange(8, 16));
        assert(out@.subrange(16, 24) =~= b.subrange(16, 24));
        assert(out@.subrange(24, 32) =~= c.subrange(24, 32));
        assert(out@.subrange(32, 40) =~= d.subrange(32, 40));
        assert(out@ =~= out@.subrange(0, 8) + out@.subrange(8, 16) + out@.subrange(16, 24)
            + out@.subrange(24, 32) + out@.subrange(32, 40) + out@.subrange(40, 48));
    }
}

/// Write the record of an output event.
pub fn encode_output(ev: &OutputEvent, out: &mut [u8; OUTPUT_RECORD])
    ensures
        final(out)@ == output_record(*ev),
{
    match *ev {
        OutputEvent::Ack { seq, order_id } => put_output(out, 0, 0, seq.0, order_id.0, 0, 0, 0),
        OutputEvent::Fill { seq, taker, maker, price, qty, taker_side } => put_output(
            out,
            1,
            taker_side.to_u8(),
            seq.0,
            taker.0,
            maker.0,
            price.0 as u64,
            qty.0,
        ),
        OutputEvent::Cancelled { seq, order_id, remaining, reason } => {
            let detail = match reason {
                CancelReason::User => 0,
                CancelReason::Ioc => 1,
                CancelReason::SelfTradePrevention => 2,
            };
            put_output(out, 2, detail, seq.0, order_id.0, 0, 0, remaining.0)
        },
        OutputEvent::Rejected { seq, order_id, reason } => {
            let detail = match reason {
                RejectReason::DuplicateOrderId => 0,
                RejectReason::UnknownOrderId => 1,
                RejectReason::PriceOutOfBounds => 2,
                RejectReason::ZeroQty => 3,
                RejectReason::FokUnfillable => 4,
                RejectReason::ArenaFull => 5,
                RejectReason::WrongTrader => 6,
            };
            put_output(out, 3, detail, seq.0, order_id.0, 0, 0, 0)
        },
    }
}

/// What an output record says, or why it says nothing.
pub open spec fn decoded_output(b: Seq<u8>) -> Result<OutputEvent, Seq<char>> {
    let seq = SeqNo(number(b, 8, 8) as u64);
    let id = OrderId(number(b, 16, 8) as u64);
    let qty = Qty(number(b, 40, 8) as u64);
    if b[0] == 0 {
        Ok(OutputEvent::Ack { seq, order_id: id })
    } else if b[0] == 1 {
        if b[1] > 1 {
            Err("bad taker_side"@)
        } else {
            Ok(
                OutputEvent::Fill {
                    seq,
                    taker: id,
                    maker: OrderId(number(b, 24, 8) as u64),
                    price: Price((number(b, 32, 8) as u64) as i64),
                    qty,
                    taker_side: Side::from_u8(b[1]),
                },
            )
        }
    } else if b[0] == 2 {
        if b[1] > 2 {
            Err("bad cancel reason"@)
        } else {
            Ok(
                OutputEvent::Cancelled {
                    seq,
                    order_id: id,
                    remaining: qty,
                    reason: if b[1] == 0 {
                        CancelReason::User
                    } else if b[1] == 1 {
                        CancelReason::Ioc
                    } else {
                        CancelReason::SelfTradePrevention
                    },
                },
            )
        }
    } else if b[0] == 3 {
        if b[1] > 6 {
            Err("bad reject reason"@)
        } else {
            Ok(
                OutputEvent::Rejected {
                    seq,
                    order_id: id,
                    reason: if b[1] == 0 {
                        RejectReason::DuplicateOrderId
                    } else if b[1] == 1 {
                        RejectReason::UnknownOrderId
                    } else if b[1] == 2 {
                        RejectReason::PriceOutOfBounds
                    } else if b[1] == 3 {
                        RejectReason::ZeroQty
                    } else if b[1] == 4 {
                        RejectReason::FokUnfillable
                    } else if b[1] == 5 {
                        RejectReason::ArenaFull
                    } else {
                        RejectReason::WrongTrader
                    },
                },
            )
        }
    } else {
        Err("bad output tag"@)
    }
}

/// Read an output record.
pub fn decode_output(b: &[u8; OUTPUT_RECORD]) -> (r: Result<OutputEvent, CodecError>)
    ensures
        match r {
            Ok(ev) => decoded_output(b@) == Ok::<_, Seq<char>>(ev),
            Err(e) => decoded_output(b@) == Err::<OutputEvent, _>(e.0@),
        },
{
    proof {
        lemma_pow256();
    }
    let all = b.as_slice();
    let seq = SeqNo(get_le(all, 8, 8));
    let id = OrderId(get_le(all, 16, 8));
    let qty = Qty(get_le(all, 40, 8));
    match b[0] {
        0 => Ok(OutputEvent::Ack { seq, order_id: id }),
        1 => {
            let taker_side = match b[1] {
                0 => Side::Bid,
                1 => Side::Ask,
                _ => return Err(CodecError("bad taker_side")),
            };
            Ok(
                OutputEvent::Fill {
                    seq,
                    taker: id,
                    maker: OrderId(get_le(all, 24, 8)),
                    price: Price(get_le(all, 32, 8) as i64),
                    qty,
                    taker_side,
                },
            )
        },
        2 => {
            let reason = match b[1] {
                0 => CancelReason::User,
                1 => CancelReason::Ioc,
                2 => CancelReason::SelfTradePrevention,
                _ => return Err(CodecError("bad cancel reason")),
            };
            Ok(OutputEvent::Cancelled { seq, order_id: id, remaining: qty, reason })
        },
        3 => {
            let reason = match b[1] {
                0 => RejectReason::DuplicateOrderId,
                1 => RejectReason::UnknownOrderId,
                2 => RejectReason::PriceOutOfBounds,
                3 => RejectReason::ZeroQty,
                4 => RejectReason::FokUnfillable,
                5 => RejectReason::ArenaFull,
                6 => RejectReason::WrongTrader,
                _ => return Err(CodecError("bad reject reason")),
            };
            Ok(OutputEvent::Rejected { seq, order_id: id, reason })
        },
        _ => Err(CodecError("bad output tag")),
    }
}

/// The fields of an output record can be read back.
pub(crate) proof fn lemma_output_fields(
    tag: u8,
    detail: u8,
    seq: u64,
    order_id: u64,
    maker: u64,
    price: u64,
    qty: u64,
)
    ensures
        ({
            let b = output_fields(tag, detail, seq, order_id, maker, price, qty);
            &&& b.len() == OUTPUT_RECORD
            &&& b[0] == tag
            &&& b[1] == detail
            &&& number(b, 8, 8) == seq
            &&& number(b, 16, 8) == order_id
            &&& number(b, 24, 8) == maker
            &&& number(b, 32, 8) == price
            &&& number(b, 40, 8) == qty
        }),
{
    broadcast use lemma_le_len;

    lemma_pow256();
    let b = output_fields(tag, detail, seq, order_id, maker, price, qty);
    assert(b.subrange(8, 16) =~= le(seq as nat, 8));
    assert(b.subrange(16, 24) =~= le(order_id as nat, 8));
    assert(b.subrange(24, 32) =~= le(maker as nat, 8));
    assert(b.subrange(32, 40) =~= le(price as nat, 8));
    assert(b.subrange(40, 48) =~= le(qty as nat, 8));
    law_le_round_trip(seq as nat, 8);
    law_le_round_trip(order_id as nat, 8);
    law_le_round_trip(maker as nat, 8);
    law_le_round_trip(price as nat, 8);
    law_le_round_trip(qty as nat, 8);
}

/// Decoding an encoded output event gives the event.
pub proof fn law_output_round_trip(ev: OutputEvent)
    ensures
        output_record(ev).len() == OUTPUT_RECORD,
        decoded_output(output_record(ev)) == Ok::<_, Seq<char>>(ev),
{
    match ev {
        OutputEvent::Ack { seq, order_id } => {
            lemma_output_fields(0, 0, seq.0, order_id.0, 0, 0, 0);
        },
        OutputEvent::Fill { seq, taker, maker, price, qty, taker_side } => {
            lemma_price_bits(price.0);
            lemma_output_fields(
                1,
                taker_side.to_u8(),
                seq.0,
                taker.0,
                maker.0,
                price.0 as u64,
                qty.0,
            );
        },
        OutputEvent::Cancelled { seq, order_id, remaining, reason } => {
            lemma_output_fields(2, cancel_byte(reason), seq.0, order_id.0, 0, 0, remaining.0);
        },
        OutputEvent::Rejected { seq, order_id, reason } => {
            lemma_output_fields(3, reject_byte(reason), seq.0, order_id.0, 0, 0, 0);
        },
    }
}

} // verus!
