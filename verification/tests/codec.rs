//! The wire records.

use tessera::codec::{
    decode_input, decode_output, encode_input, encode_output, CodecError, INPUT_RECORD,
    OUTPUT_RECORD,
};
use tessera::events::{CancelReason, InputEvent, OutputEvent, RejectReason};
use tessera::types::{
    OrderId, Price, Qty, SelfTradePrevention, SeqNo, Side, TimeInForce, TraderId,
};

#[test]
fn input_roundtrip() {
    let evs = [
        InputEvent::New {
            seq: SeqNo(7),
            order_id: OrderId(u64::MAX),
            trader: TraderId(3),
            side: Side::Ask,
            price: Price(-42),
            qty: Qty(u64::MAX / 3),
            tif: TimeInForce::Fok,
            stp: SelfTradePrevention::CancelBoth,
        },
        InputEvent::Cancel {
            seq: SeqNo(8),
            order_id: OrderId(0),
            trader: TraderId(u32::MAX),
        },
        InputEvent::Modify {
            seq: SeqNo(9),
            order_id: OrderId(1),
            trader: TraderId(0),
            new_price: Price(i64::MIN + 1),
            new_qty: Qty(1),
        },
    ];
    let mut buf = [0u8; INPUT_RECORD];
    for ev in evs {
        encode_input(&ev, &mut buf);
        assert_eq!(decode_input(&buf).unwrap(), ev);
    }
}

#[test]
fn output_roundtrip() {
    let evs = [
        OutputEvent::Ack {
            seq: SeqNo(1),
            order_id: OrderId(2),
        },
        OutputEvent::Fill {
            seq: SeqNo(2),
            taker: OrderId(3),
            maker: OrderId(4),
            price: Price(-5),
            qty: Qty(6),
            taker_side: Side::Ask,
        },
        OutputEvent::Cancelled {
            seq: SeqNo(3),
            order_id: OrderId(7),
            remaining: Qty(8),
            reason: CancelReason::SelfTradePrevention,
        },
        OutputEvent::Rejected {
            seq: SeqNo(4),
            order_id: OrderId(9),
            reason: RejectReason::WrongTrader,
        },
    ];
    let mut buf = [0u8; OUTPUT_RECORD];
    for ev in evs {
        encode_output(&ev, &mut buf);
        assert_eq!(decode_output(&buf).unwrap(), ev);
    }
}

#[test]
fn garbage_decodes_to_error_not_panic() {
    let mut b = [0xFFu8; INPUT_RECORD];
    assert!(decode_input(&b).is_err());
    b[0] = 0; // New with garbage side/tif/stp
    assert!(decode_input(&b).is_err());
    let o = [0xFFu8; OUTPUT_RECORD];
    assert!(decode_output(&o).is_err());
}

#[test]
fn input_layout_is_pinned() {
    let ev = InputEvent::New {
        seq: SeqNo(0x0102_0304_0506_0708),
        order_id: OrderId(0x1112_1314_1516_1718),
        trader: TraderId(0x2122_2324),
        side: Side::Ask,
        price: Price(-2),
        qty: Qty(0x3132_3334_3536_3738),
        tif: TimeInForce::Ioc,
        stp: SelfTradePrevention::CancelAggressor,
    };
    let mut buf = [0xAAu8; INPUT_RECORD];
    encode_input(&ev, &mut buf);
    let want: [u8; INPUT_RECORD] = [
        0, 1, 1, 2, 0x24, 0x23, 0x22, 0x21, 8, 7, 6, 5, 4, 3, 2, 1, 0x18, 0x17, 0x16, 0x15, 0x14,
        0x13, 0x12, 0x11, 0xfe, 0xff, 0xff, 0xff, 0xff, 0xff, 0xff, 0xff, 0x38, 0x37, 0x36, 0x35,
        0x34, 0x33, 0x32, 0x31,
    ];
    assert_eq!(buf, want);

    // A cancel leaves the fields it has no use for at zero.
    let ev = InputEvent::Cancel {
        seq: SeqNo(1),
        order_id: OrderId(2),
        trader: TraderId(3),
    };
    encode_input(&ev, &mut buf);
    let mut want = [0u8; INPUT_RECORD];
    want[0] = 1;
    want[4] = 3;
    want[8] = 1;
    want[16] = 2;
    assert_eq!(buf, want);
}

#[test]
fn each_malformed_input_field_has_its_error() {
    let mut b = [0u8; INPUT_RECORD];
    assert!(decode_input(&b).is_ok());
    b[0] = 3;
    assert_eq!(decode_input(&b), Err(CodecError("bad input tag")));
    b[0] = 0;
    b[1] = 2;
    assert_eq!(decode_input(&b), Err(CodecError("bad side")));
    b[1] = 1;
    b[2] = 3;
    assert_eq!(decode_input(&b), Err(CodecError("bad tif")));
    b[2] = 2;
    b[3] = 4;
    assert_eq!(decode_input(&b), Err(CodecError("bad stp")));
    b[3] = 3;
    assert!(decode_input(&b).is_ok());
    // Side, tif and stp are read for new orders only.
    b[0] = 1;
    b[1] = 9;
    b[2] = 9;
    b[3] = 9;
    assert!(decode_input(&b).is_ok());
}

#[test]
fn each_malformed_output_field_has_its_error() {
    let mut b = [0u8; OUTPUT_RECORD];
    b[0] = 4;
    assert_eq!(decode_output(&b), Err(CodecError("bad output tag")));
    let fill = OutputEvent::Fill {
        seq: SeqNo(1),
        taker: OrderId(2),
        maker: OrderId(3),
        price: Price(4),
        qty: Qty(5),
        taker_side: Side::Bid,
    };
    encode_output(&fill, &mut b);
    b[1] = 2;
    assert_eq!(decode_output(&b), Err(CodecError("bad taker_side")));
    let gone = OutputEvent::Cancelled {
        seq: SeqNo(1),
        order_id: OrderId(2),
        remaining: Qty(3),
        reason: CancelReason::User,
    };
    encode_output(&gone, &mut b);
    assert_eq!(b[1], 0);
    b[1] = 3;
    assert_eq!(decode_output(&b), Err(CodecError("bad cancel reason")));
    let refused = OutputEvent::Rejected {
        seq: SeqNo(1),
        order_id: OrderId(2),
        reason: RejectReason::DuplicateOrderId,
    };
    encode_output(&refused, &mut b);
    assert_eq!(b[1], 0);
    b[1] = 7;
    assert_eq!(decode_output(&b), Err(CodecError("bad reject reason")));
    assert_eq!(
        decode_output(&b).unwrap_err().message(),
        "codec error: bad reject reason"
    );
}

#[test]
fn every_reason_survives_the_wire() {
    let reasons = [
        RejectReason::DuplicateOrderId,
        RejectReason::UnknownOrderId,
        RejectReason::PriceOutOfBounds,
        RejectReason::ZeroQty,
        RejectReason::FokUnfillable,
        RejectReason::ArenaFull,
        RejectReason::WrongTrader,
    ];
    let mut b = [0u8; OUTPUT_RECORD];
    for (i, reason) in reasons.into_iter().enumerate() {
        let ev = OutputEvent::Rejected {
            seq: SeqNo(1),
            order_id: OrderId(2),
            reason,
        };
        encode_output(&ev, &mut b);
        assert_eq!(b[1] as usize, i);
        assert_eq!(decode_output(&b), Ok(ev));
    }
    for (i, reason) in [
        CancelReason::User,
        CancelReason::Ioc,
        CancelReason::SelfTradePrevention,
    ]
    .into_iter()
    .enumerate()
    {
        let ev = OutputEvent::Cancelled {
            seq: SeqNo(1),
            order_id: OrderId(2),
            remaining: Qty(u64::MAX),
            reason,
        };
        encode_output(&ev, &mut b);
        assert_eq!(b[1] as usize, i);
        assert_eq!(decode_output(&b), Ok(ev));
    }
}

#[test]
fn bytes_of_the_types() {
    for s in [Side::Bid, Side::Ask] {
        assert_eq!(Side::from_u8(s.to_u8()), s);
    }
    assert_eq!(Side::from_u8(200), Side::Ask);
    assert_eq!(Side::Bid.opposite(), Side::Ask);
    assert_eq!(Side::Ask.opposite(), Side::Bid);
    for (i, s) in [
        SelfTradePrevention::Disabled,
        SelfTradePrevention::CancelResting,
        SelfTradePrevention::CancelAggressor,
        SelfTradePrevention::CancelBoth,
    ]
    .into_iter()
    .enumerate()
    {
        assert_eq!(s.to_u8() as usize, i);
        assert_eq!(SelfTradePrevention::from_u8(s.to_u8()), s);
    }
    assert_eq!(SelfTradePrevention::from_u8(4), SelfTradePrevention::Disabled);
}
