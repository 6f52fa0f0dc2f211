//! What stands where on the wire, which bytes say nothing, and that reading
//! gives back all there is.

use crate::bytes::{law_from_le_round_trip, lemma_from_le_bound, lemma_le_len, lemma_pow256};
use crate::codec::{
    decoded_input, decoded_output, input_record, lemma_input_fields, lemma_output_fields,
    number, output_record,
};
use crate::config::BookConfig;
use crate::events::{CancelReason, InputEvent, OutputEvent, RejectReason};
use crate::journal::{
    decoded_header, header_bytes, journal_bytes, law_journal_round_trip, lemma_records_front,
    output_records, parsed, records, replayed,
};
use crate::hash::{book_hash, fnv, FNV_OFFSET};
use crate::laws::run;
use crate::model::BookModel;
use crate::types::{SelfTradePrevention, Side, TimeInForce};
use vstd::prelude::*;

verus! {

/// A price in eight bytes from `at` on.
pub open spec fn price_there(b: Seq<u8>, at: int, price: i64) -> bool {
    number(b, at, 8) == price as u64
}

/// Where everything stands in an input record.
pub proof fn law_input_layout(ev: InputEvent)
    ensures
        ({
            let b = input_record(ev);
            &&& b.len() == 40
            &&& number(b, 8, 8) == ev.seq().0
            &&& match ev {
                InputEvent::New { order_id, trader, side, price, qty, tif, stp, .. } => {
                    &&& b[0] == 0
                    &&& b[1] == (match side {
                        Side::Bid => 0int,
                        Side::Ask => 1,
                    })
                    &&& b[2] == (match tif {
                        TimeInForce::Gtc => 0int,
                        TimeInForce::Ioc => 1,
                        TimeInForce::Fok => 2,
                    })
                    &&& b[3] == (match stp {
                        SelfTradePrevention::Disabled => 0int,
                        SelfTradePrevention::CancelResting => 1,
                        SelfTradePrevention::CancelAggressor => 2,
                        SelfTradePrevention::CancelBoth => 3,
                    })
                    &&& number(b, 4, 4) == trader.0
                    &&& number(b, 16, 8) == order_id.0
                    &&& price_there(b, 24, price.0)
                    &&& number(b, 32, 8) == qty.0
                },
                InputEvent::Cancel { order_id, trader, .. } => {
                    &&& b[0] == 1 && b[1] == 0 && b[2] == 0 && b[3] == 0
                    &&& number(b, 4, 4) == trader.0
                    &&& number(b, 16, 8) == order_id.0
                    &&& number(b, 24, 8) == 0
                    &&& number(b, 32, 8) == 0
                },
                InputEvent::Modify { order_id, trader, new_price, new_qty, .. } => {
                    &&& b[0] == 2 && b[1] == 0 && b[2] == 0 && b[3] == 0
                    &&& number(b, 4, 4) == trader.0
                    &&& number(b, 16, 8) == order_id.0
                    &&& price_there(b, 24, new_price.0)
                    &&& number(b, 32, 8) == new_qty.0
                },
            }
        }),
{
    match ev {
        InputEvent::New { seq, order_id, trader, side, price, qty, tif, stp } => {
            let head = seq![0u8, side.to_u8(), crate::codec::tif_byte(tif), stp.to_u8()];
            lemma_input_fields(head, trader.0, seq.0, order_id.0, price.0 as u64, qty.0);
            let b = input_record(ev);
            assert(b[0] == head[0] && b[1] == head[1] && b[2] == head[2] && b[3] == head[3]);
        },
        InputEvent::Cancel { seq, order_id, trader } => {
            let head = seq![1u8, 0, 0, 0];
            lemma_input_fields(head, trader.0, seq.0, order_id.0, 0, 0);
            let b = input_record(ev);
            assert(b[0] == head[0] && b[1] == head[1] && b[2] == head[2] && b[3] == head[3]);
        },
        InputEvent::Modify { seq, order_id, trader, new_price, new_qty } => {
            let head = seq![2u8, 0, 0, 0];
            lemma_input_fields(
                head,
                trader.0,
                seq.0,
                order_id.0,
                new_price.0 as u64,
                new_qty.0,
            );
            let b = input_record(ev);
            assert(b[0] == head[0] && b[1] == head[1] && b[2] == head[2] && b[3] == head[3]);
        },
    }
}

/// Where everything stands in an output record.
pub proof fn law_output_layout(ev: OutputEvent)
    ensures
        ({
            let b = output_record(ev);
            &&& b.len() == 48
            &&& number(b, 8, 8) == ev.cause().0
            &&& match ev {
                OutputEvent::Ack { order_id, .. } => {
                    &&& b[0] == 0
                    &&& b[1] == 0
                    &&& number(b, 16, 8) == order_id.0
                    &&& number(b, 24, 8) == 0
                    &&& number(b, 32, 8) == 0
                    &&& number(b, 40, 8) == 0
                },
                OutputEvent::Fill { taker, maker, price, qty, taker_side, .. } => {
                    &&& b[0] == 1
                    &&& b[1] == (match taker_side {
                        Side::Bid => 0int,
                        Side::Ask => 1,
                    })
                    &&& number(b, 16, 8) == taker.0
                    &&& number(b, 24, 8) == maker.0
                    &&& price_there(b, 32, price.0)
                    &&& number(b, 40, 8) == qty.0
                },
                OutputEvent::Cancelled { order_id, remaining, reason, .. } => {
                    &&& b[0] == 2
                    &&& b[1] == (match reason {
                        CancelReason::User => 0int,
                        CancelReason::Ioc => 1,
                        CancelReason::SelfTradePrevention => 2,
                    })
                    &&& number(b, 16, 8) == order_id.0
                    &&& number(b, 24, 8) == 0
                    &&& number(b, 32, 8) == 0
                    &&& number(b, 40, 8) == remaining.0
                },
                OutputEvent::Rejected { order_id, reason, .. } => {
                    &&& b[0] == 3
                    &&& b[1] == (match reason {
                        RejectReason::DuplicateOrderId => 0int,
                        RejectReason::UnknownOrderId => 1,
                        RejectReason::PriceOutOfBounds => 2,
                        RejectReason::ZeroQty => 3,
                        RejectReason::FokUnfillable => 4,
                        RejectReason::ArenaFull => 5,
                        RejectReason::WrongTrader => 6,
                    })
                    &&& number(b, 16, 8) == order_id.0
                    &&& number(b, 24, 8) == 0
                    &&& number(b, 32, 8) == 0
                    &&& number(b, 40, 8) == 0
                },
            }
        }),
{
    match ev {
        OutputEvent::Ack { seq, order_id } => {
            lemma_output_fields(0, 0, seq.0, order_id.0, 0, 0, 0);
        },
        OutputEvent::Fill { seq, taker, maker, price, qty, taker_side } => {
            lemma_output_fields(
                1,
                taker_side.to_u8(),
                seq.0,
                taker.0,
                maker.0,
                price.0 as u64,
                qty.0,
            );
        },
        OutputEvent::Cancelled { seq, order_id, remaining, reason } => {
            lemma_output_fields(
                2,
                crate::codec::cancel_byte(reason),
                seq.0,
                order_id.0,
                0,
                0,
                remaining.0,
            );
        },
        OutputEvent::Rejected { seq, order_id, reason } => {
            lemma_output_fields(3, crate::codec::reject_byte(reason), seq.0, order_id.0, 0, 0, 0);
        },
    }
}

/// Which input records say nothing, and for which of their bytes: the sort; and
/// for a new order its side, its time in force, its self-trade rule, the first
/// of them that is bad. Every other record is read.
pub proof fn law_bad_inputs(b: Seq<u8>)
    ensures
        decoded_input(b) is Err <==> b[0] > 2 || (b[0] == 0 && (b[1] > 1 || b[2] > 2 || b[3] > 3)),
        b[0] > 2 ==> decoded_input(b) == Err::<InputEvent, _>("bad input tag"@),
        b[0] == 0 && b[1] > 1 ==> decoded_input(b) == Err::<InputEvent, _>("bad side"@),
        b[0] == 0 && b[1] <= 1 && b[2] > 2 ==> decoded_input(b) == Err::<InputEvent, _>(
            "bad tif"@,
        ),
        b[0] == 0 && b[1] <= 1 && b[2] <= 2 && b[3] > 3 ==> decoded_input(b) == Err::<
            InputEvent,
            _,
        >("bad stp"@),
{
}

/// Which output records say nothing, and for which of their bytes.
pub proof fn law_bad_outputs(b: Seq<u8>)
    ensures
        decoded_output(b) is Err <==> b[0] > 3 || (b[0] == 1 && b[1] > 1) || (b[0] == 2 && b[1] > 2)
            || (b[0] == 3 && b[1] > 6),
        b[0] > 3 ==> decoded_output(b) == Err::<OutputEvent, _>("bad output tag"@),
        b[0] == 1 && b[1] > 1 ==> decoded_output(b) == Err::<OutputEvent, _>("bad taker_side"@),
        b[0] == 2 && b[1] > 2 ==> decoded_output(b) == Err::<OutputEvent, _>("bad cancel reason"@),
        b[0] == 3 && b[1] > 6 ==> decoded_output(b) == Err::<OutputEvent, _>("bad reject reason"@),
{
}

/// A number read fits its bytes, and written it gives them back.
proof fn lemma_number(b: Seq<u8>, at: int, n: int)
    requires
        0 <= at,
        0 <= n,
        at + n <= b.len(),
    ensures
        crate::bytes::le(number(b, at, n), n as nat) == b.subrange(at, at + n),
        number(b, at, n) < crate::bytes::pow256(n as nat),
{
    law_from_le_round_trip(b.subrange(at, at + n));
    lemma_from_le_bound(b.subrange(at, at + n));
}

/// An input record that is read says all it holds: written again, a new order
/// gives the same bytes, and so do a cancel and a modify where the bytes that
/// they have no use for are zero.
#[verifier::spinoff_prover]
#[verifier::rlimit(40)]
pub proof fn law_input_reads_all(b: Seq<u8>)
    requires
        b.len() == 40,
        decoded_input(b) is Ok,
        b[0] != 0 ==> b[1] == 0 && b[2] == 0 && b[3] == 0,
        b[0] == 1 ==> number(b, 24, 8) == 0 && number(b, 32, 8) == 0,
    ensures
        input_record(decoded_input(b)->Ok_0) == b,
{
    broadcast use lemma_le_len;

    lemma_pow256();
    lemma_number(b, 4, 4);
    lemma_number(b, 8, 8);
    lemma_number(b, 16, 8);
    lemma_number(b, 24, 8);
    lemma_number(b, 32, 8);
    let p = number(b, 24, 8) as u64;
    assert((p as i64) as u64 == p) by (bit_vector);
    let r = input_record(decoded_input(b)->Ok_0);
    assert(b.subrange(0, 4) =~= r.subrange(0, 4));
    assert(b =~= b.subrange(0, 4) + b.subrange(4, 8) + b.subrange(8, 16) + b.subrange(16, 24)
        + b.subrange(24, 32) + b.subrange(32, 40));
    assert(r =~= b);
}

/// What a journal's header must be: 32 bytes, `TSRAJRN1` first, a positive tick
/// and a level. The first of these that fails is the fault; and a header that is
/// read says all it holds.
#[verifier::spinoff_prover]
#[verifier::rlimit(40)]
pub proof fn law_header_verdict(b: Seq<u8>)
    ensures
        ({
            let signed = b.subrange(0, 8) == seq![84u8, 83, 82, 65, 74, 82, 78, 49];
            let tick = (number(b, 16, 8) as u64) as i64;
            let levels = number(b, 24, 4);
            let r = decoded_header(b);
            &&& b.len() < 32 ==> r == Err::<BookConfig, _>("truncated journal header"@)
            &&& b.len() >= 32 && !signed ==> r == Err::<BookConfig, _>("not a tessera journal"@)
            &&& b.len() >= 32 && signed && (tick < 1 || levels == 0) ==> r == Err::<BookConfig, _>(
                "corrupt journal header"@,
            )
            &&& b.len() >= 32 && signed && tick >= 1 && levels > 0 ==> {
                &&& r is Ok
                &&& header_bytes(r->Ok_0) == b.take(32)
            }
        }),
{
    broadcast use lemma_le_len;

    lemma_pow256();
    if b.len() >= 32 {
        lemma_number(b, 8, 8);
        lemma_number(b, 16, 8);
        lemma_number(b, 24, 4);
        lemma_number(b, 28, 4);
        let x = number(b, 8, 8) as u64;
        let y = number(b, 16, 8) as u64;
        assert((x as i64) as u64 == x) by (bit_vector);
        assert((y as i64) as u64 == y) by (bit_vector);
        if decoded_header(b) is Ok {
            let h = header_bytes(decoded_header(b)->Ok_0);
            assert(b.take(32) =~= b.subrange(0, 8) + b.subrange(8, 16) + b.subrange(16, 24)
                + b.subrange(24, 28) + b.subrange(28, 32));
            assert(h =~= b.take(32));
        }
    }
}

/// A journal that breaks off in the middle of a record is found out, whatever
/// stands before it; one with a bad record is refused for it.
pub proof fn law_broken_journals(evs: Seq<InputEvent>, part: Seq<u8>)
    ensures
        0 < part.len() < 40 ==> parsed(records(evs) + part) == Err::<Seq<InputEvent>, _>(
            "truncated journal record"@,
        ),
        part.len() >= 40 && decoded_input(part.take(40)) is Err ==> parsed(records(evs) + part)
            == Err::<Seq<InputEvent>, _>(decoded_input(part.take(40))->Err_0),
    decreases evs.len(),
{
    let b = records(evs) + part;
    if evs.len() == 0 {
        assert(b =~= part);
    } else {
        let t = evs.skip(1);
        lemma_records_front(evs);
        law_broken_journals(t, part);
        crate::codec::law_input_round_trip(evs[0]);
        assert(b.take(40) =~= input_record(evs[0]));
        assert(b.skip(40) =~= records(t) + part);
    }
}

/// Replaying a journal tells how many instructions it holds and how many events
/// they gave, and fingerprints those events and the book they lead to.
pub proof fn law_replay_tells_the_session(cfg: BookConfig, evs: Seq<InputEvent>)
    requires
        cfg.tick_size >= 1,
        cfg.num_levels > 0,
        evs.len() <= u64::MAX,
        run(BookModel::empty(cfg), evs).events.len() <= u64::MAX,
    ensures
        ({
            let end = run(BookModel::empty(cfg), evs);
            let r = replayed(journal_bytes(cfg, evs));
            &&& r is Ok
            &&& r->Ok_0.events == evs.len()
            &&& r->Ok_0.outputs == end.events.len()
            &&& r->Ok_0.output_hash == fnv(FNV_OFFSET, output_records(end.events))
            &&& r->Ok_0.state_hash == book_hash(end.book)
        }),
{
    law_journal_round_trip(cfg, evs);
}

} // verus!
