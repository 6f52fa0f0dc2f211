//! The shared behavioral suite. Every case is written once, against the
//! `Engine` trait, and run on BOTH engines: the suites cannot drift apart.

use tessera::book::OrderBook;
use tessera::buffer::EventBuffer;
use tessera::config::BookConfig;
use tessera::events::{CancelReason, InputEvent, OutputEvent, RejectReason};
use tessera::reference::ReferenceBook;
use tessera::types::{OrderId, Price, Qty, SelfTradePrevention, SeqNo, Side, TimeInForce, TraderId};

fn new_full(
    seq: u64,
    id: u64,
    trader: u32,
    side: Side,
    price: i64,
    qty: u64,
    tif: TimeInForce,
    stp: SelfTradePrevention,
) -> InputEvent {
    InputEvent::New {
        seq: SeqNo(seq),
        order_id: OrderId(id),
        trader: TraderId(trader),
        side,
        price: Price(price),
        qty: Qty(qty),
        tif,
        stp,
    }
}

/// Plain GTC limit order, no self-trade prevention.
fn new_lim(seq: u64, id: u64, trader: u32, side: Side, price: i64, qty: u64) -> InputEvent {
    new_tif(seq, id, trader, side, price, qty, TimeInForce::Gtc)
}

fn new_tif(
    seq: u64,
    id: u64,
    trader: u32,
    side: Side,
    price: i64,
    qty: u64,
    tif: TimeInForce,
) -> InputEvent {
    let stp = SelfTradePrevention::Disabled;
    new_full(seq, id, trader, side, price, qty, tif, stp)
}

fn cancel(seq: u64, id: u64, trader: u32) -> InputEvent {
    InputEvent::Cancel {
        seq: SeqNo(seq),
        order_id: OrderId(id),
        trader: TraderId(trader),
    }
}

fn modify(seq: u64, id: u64, trader: u32, price: i64, qty: u64) -> InputEvent {
    InputEvent::Modify {
        seq: SeqNo(seq),
        order_id: OrderId(id),
        trader: TraderId(trader),
        new_price: Price(price),
        new_qty: Qty(qty),
    }
}

fn ack(seq: u64, id: u64) -> OutputEvent {
    OutputEvent::Ack {
        seq: SeqNo(seq),
        order_id: OrderId(id),
    }
}

fn fill(
    seq: u64,
    taker: u64,
    maker: u64,
    price: i64,
    qty: u64,
    taker_side: Side,
) -> OutputEvent {
    OutputEvent::Fill {
        seq: SeqNo(seq),
        taker: OrderId(taker),
        maker: OrderId(maker),
        price: Price(price),
        qty: Qty(qty),
        taker_side,
    }
}

fn cancelled(seq: u64, id: u64, remaining: u64, reason: CancelReason) -> OutputEvent {
    OutputEvent::Cancelled {
        seq: SeqNo(seq),
        order_id: OrderId(id),
        remaining: Qty(remaining),
        reason,
    }
}

fn rejected(seq: u64, id: u64, reason: RejectReason) -> OutputEvent {
    OutputEvent::Rejected {
        seq: SeqNo(seq),
        order_id: OrderId(id),
        reason,
    }
}

/// The narrow waist both engines share.
trait Engine {
    fn start(cfg: BookConfig) -> Self;
    fn apply(&mut self, ev: InputEvent) -> Vec<OutputEvent>;
}

impl Engine for ReferenceBook {
    fn start(cfg: BookConfig) -> Self {
        ReferenceBook::new(cfg)
    }
    fn apply(&mut self, ev: InputEvent) -> Vec<OutputEvent> {
        ReferenceBook::apply(self, ev)
    }
}

/// The engine with a buffer of its own.
struct FastBook {
    book: OrderBook,
    buf: EventBuffer,
}

impl Engine for FastBook {
    fn start(cfg: BookConfig) -> Self {
        FastBook {
            book: OrderBook::new(cfg),
            buf: EventBuffer::for_book(&cfg),
        }
    }
    fn apply(&mut self, ev: InputEvent) -> Vec<OutputEvent> {
        self.buf.clear();
        self.book.apply(ev, &mut self.buf);
        assert_eq!(self.book.validate(), Ok(()));
        self.buf.as_slice().to_vec()
    }
}

fn eng<E: Engine>() -> E {
    E::start(BookConfig::test())
}

fn check_rest_and_ack<E: Engine>() {
    let mut e = eng::<E>();
    assert_eq!(e.apply(new_lim(1, 1, 1, Side::Bid, 1500, 10)), vec![ack(1, 1)]);
}

fn check_simple_cross_full<E: Engine>() {
    let mut e = eng::<E>();
    assert_eq!(e.apply(new_lim(1, 1, 1, Side::Ask, 1500, 10)), vec![ack(1, 1)]);
    assert_eq!(
        e.apply(new_lim(2, 2, 2, Side::Bid, 1500, 10)),
        vec![ack(2, 2), fill(2, 2, 1, 1500, 10, Side::Bid)]
    );
    // Both orders are gone: a new ask does not trade.
    assert_eq!(e.apply(new_lim(3, 3, 3, Side::Ask, 1500, 1)), vec![ack(3, 3)]);
}

fn check_partial_fill_aggressor_rests<E: Engine>() {
    let mut e = eng::<E>();
    e.apply(new_lim(1, 1, 1, Side::Ask, 1500, 4));
    assert_eq!(
        e.apply(new_lim(2, 2, 2, Side::Bid, 1500, 10)),
        vec![ack(2, 2), fill(2, 2, 1, 1500, 4, Side::Bid)]
    );
    // The 6-lot remainder rested as a bid: a new ask fills against it.
    assert_eq!(
        e.apply(new_lim(3, 3, 3, Side::Ask, 1500, 6)),
        vec![ack(3, 3), fill(3, 3, 2, 1500, 6, Side::Ask)]
    );
}

fn check_partial_fill_maker_remains<E: Engine>() {
    let mut e = eng::<E>();
    e.apply(new_lim(1, 1, 1, Side::Ask, 1500, 10));
    assert_eq!(
        e.apply(new_lim(2, 2, 2, Side::Bid, 1500, 4)),
        vec![ack(2, 2), fill(2, 2, 1, 1500, 4, Side::Bid)]
    );
    // Maker keeps its 6 remaining lots and its place in the book.
    assert_eq!(
        e.apply(new_lim(3, 3, 3, Side::Bid, 1500, 6)),
        vec![ack(3, 3), fill(3, 3, 1, 1500, 6, Side::Bid)]
    );
}

fn check_multi_level_sweep<E: Engine>() {
    let mut e = eng::<E>();
    e.apply(new_lim(1, 1, 1, Side::Ask, 1500, 5));
    e.apply(new_lim(2, 2, 2, Side::Ask, 1501, 5));
    e.apply(new_lim(3, 3, 3, Side::Ask, 1502, 5));
    assert_eq!(
        e.apply(new_lim(4, 4, 4, Side::Bid, 1503, 20)),
        vec![
            ack(4, 4),
            fill(4, 4, 1, 1500, 5, Side::Bid),
            fill(4, 4, 2, 1501, 5, Side::Bid),
            fill(4, 4, 3, 1502, 5, Side::Bid),
        ]
    );
    // The 5-lot remainder rested at 1503.
    assert_eq!(
        e.apply(new_lim(5, 5, 5, Side::Ask, 1503, 5)),
        vec![ack(5, 5), fill(5, 5, 4, 1503, 5, Side::Ask)]
    );
}

fn check_price_improvement<E: Engine>() {
    let mut e = eng::<E>();
    e.apply(new_lim(1, 1, 1, Side::Ask, 1400, 10));
    // Aggressive bid at 1600 fills at the RESTING price, 1400.
    assert_eq!(
        e.apply(new_lim(2, 2, 2, Side::Bid, 1600, 10)),
        vec![ack(2, 2), fill(2, 2, 1, 1400, 10, Side::Bid)]
    );
}

fn check_fifo_priority<E: Engine>() {
    let mut e = eng::<E>();
    e.apply(new_lim(1, 1, 1, Side::Ask, 1500, 5));
    e.apply(new_lim(2, 2, 2, Side::Ask, 1500, 5));
    // The older ask (id 1) fills first and fully; the newer fills the rest.
    assert_eq!(
        e.apply(new_lim(3, 3, 3, Side::Bid, 1500, 7)),
        vec![
            ack(3, 3),
            fill(3, 3, 1, 1500, 5, Side::Bid),
            fill(3, 3, 2, 1500, 2, Side::Bid),
        ]
    );
}

fn check_cancel_resting<E: Engine>() {
    let mut e = eng::<E>();
    e.apply(new_lim(1, 1, 1, Side::Bid, 1500, 10));
    assert_eq!(
        e.apply(cancel(2, 1, 1)),
        vec![cancelled(2, 1, 10, CancelReason::User)]
    );
    // Really gone: an ask at that price does not trade.
    assert_eq!(e.apply(new_lim(3, 2, 2, Side::Ask, 1500, 1)), vec![ack(3, 2)]);
}

fn check_cancel_nonexistent<E: Engine>() {
    let mut e = eng::<E>();
    assert_eq!(
        e.apply(cancel(1, 99, 1)),
        vec![rejected(1, 99, RejectReason::UnknownOrderId)]
    );
}

fn check_cancel_wrong_trader<E: Engine>() {
    let mut e = eng::<E>();
    e.apply(new_lim(1, 1, 1, Side::Bid, 1500, 10));
    assert_eq!(
        e.apply(cancel(2, 1, 2)),
        vec![rejected(2, 1, RejectReason::WrongTrader)]
    );
    // Still owned and cancellable by the right trader.
    assert_eq!(
        e.apply(cancel(3, 1, 1)),
        vec![cancelled(3, 1, 10, CancelReason::User)]
    );
}

fn check_cancel_after_partial_fill<E: Engine>() {
    let mut e = eng::<E>();
    e.apply(new_lim(1, 1, 1, Side::Ask, 1500, 10));
    e.apply(new_lim(2, 2, 2, Side::Bid, 1500, 4));
    assert_eq!(e.apply(cancel(3, 1, 1)), vec![cancelled(3, 1, 6, CancelReason::User)]);
}

fn check_ioc_partial<E: Engine>() {
    let mut e = eng::<E>();
    e.apply(new_lim(1, 1, 1, Side::Ask, 1500, 4));
    assert_eq!(
        e.apply(new_tif(2, 2, 2, Side::Bid, 1500, 10, TimeInForce::Ioc)),
        vec![
            ack(2, 2),
            fill(2, 2, 1, 1500, 4, Side::Bid),
            cancelled(2, 2, 6, CancelReason::Ioc),
        ]
    );
    // Nothing rested: a new ask does not trade.
    assert_eq!(e.apply(new_lim(3, 3, 3, Side::Ask, 1500, 1)), vec![ack(3, 3)]);
}

fn check_ioc_no_cross<E: Engine>() {
    let mut e = eng::<E>();
    assert_eq!(
        e.apply(new_tif(1, 1, 1, Side::Bid, 1500, 10, TimeInForce::Ioc)),
        vec![ack(1, 1), cancelled(1, 1, 10, CancelReason::Ioc)]
    );
}

fn check_fok_reject_leaves_book_untouched<E: Engine>() {
    let mut e = eng::<E>();
    e.apply(new_lim(1, 1, 1, Side::Ask, 1500, 4));
    assert_eq!(
        e.apply(new_tif(2, 2, 2, Side::Bid, 1500, 10, TimeInForce::Fok)),
        vec![rejected(2, 2, RejectReason::FokUnfillable)]
    );
    // Maker still has its full 4 lots.
    assert_eq!(
        e.apply(new_lim(3, 3, 3, Side::Bid, 1500, 10)),
        vec![ack(3, 3), fill(3, 3, 1, 1500, 4, Side::Bid)]
    );
}

fn check_fok_fill_across_levels<E: Engine>() {
    let mut e = eng::<E>();
    e.apply(new_lim(1, 1, 1, Side::Ask, 1500, 4));
    e.apply(new_lim(2, 2, 2, Side::Ask, 1501, 6));
    assert_eq!(
        e.apply(new_tif(3, 3, 3, Side::Bid, 1501, 10, TimeInForce::Fok)),
        vec![
            ack(3, 3),
            fill(3, 3, 1, 1500, 4, Side::Bid),
            fill(3, 3, 2, 1501, 6, Side::Bid),
        ]
    );
}

fn check_stp_none_allows_self_trade<E: Engine>() {
    let mut e = eng::<E>();
    e.apply(new_lim(1, 1, 7, Side::Ask, 1500, 5));
    assert_eq!(
        e.apply(new_lim(2, 2, 7, Side::Bid, 1500, 5)),
        vec![ack(2, 2), fill(2, 2, 1, 1500, 5, Side::Bid)]
    );
}

fn check_stp_cancel_resting<E: Engine>() {
    let mut e = eng::<E>();
    e.apply(new_lim(1, 1, 7, Side::Ask, 1500, 5)); // own
    e.apply(new_lim(2, 2, 8, Side::Ask, 1500, 5)); // other trader
    assert_eq!(
        e.apply(new_full(
            3,
            3,
            7,
            Side::Bid,
            1500,
            10,
            TimeInForce::Gtc,
            SelfTradePrevention::CancelResting
        )),
        vec![
            ack(3, 3),
            cancelled(3, 1, 5, CancelReason::SelfTradePrevention),
            fill(3, 3, 2, 1500, 5, Side::Bid),
        ]
    );
    // The 5-lot remainder rested as a bid.
    assert_eq!(
        e.apply(new_lim(4, 4, 9, Side::Ask, 1500, 5)),
        vec![ack(4, 4), fill(4, 4, 3, 1500, 5, Side::Ask)]
    );
}

fn check_stp_cancel_aggressor<E: Engine>() {
    let mut e = eng::<E>();
    e.apply(new_lim(1, 1, 7, Side::Ask, 1500, 5));
    assert_eq!(
        e.apply(new_full(
            2,
            2,
            7,
            Side::Bid,
            1500,
            10,
            TimeInForce::Gtc,
            SelfTradePrevention::CancelAggressor
        )),
        vec![ack(2, 2), cancelled(2, 2, 10, CancelReason::SelfTradePrevention)]
    );
    // The resting order survived untouched.
    assert_eq!(
        e.apply(new_lim(3, 3, 8, Side::Bid, 1500, 5)),
        vec![ack(3, 3), fill(3, 3, 1, 1500, 5, Side::Bid)]
    );
}

fn check_stp_cancel_both<E: Engine>() {
    let mut e = eng::<E>();
    e.apply(new_lim(1, 1, 7, Side::Ask, 1500, 5));
    assert_eq!(
        e.apply(new_full(2, 2, 7, Side::Bid, 1500, 10, TimeInForce::Gtc, SelfTradePrevention::CancelBoth)),
        vec![
            ack(2, 2),
            cancelled(2, 1, 5, CancelReason::SelfTradePrevention),
            cancelled(2, 2, 10, CancelReason::SelfTradePrevention),
        ]
    );
    // Book is empty on both sides.
    assert_eq!(e.apply(new_lim(3, 3, 8, Side::Bid, 1500, 1)), vec![ack(3, 3)]);
    assert_eq!(
        e.apply(cancel(4, 1, 7)),
        vec![rejected(4, 1, RejectReason::UnknownOrderId)]
    );
}

fn check_stp_middle_of_fifo<E: Engine>() {
    let mut e = eng::<E>();
    e.apply(new_lim(1, 1, 8, Side::Ask, 1500, 3)); // other
    e.apply(new_lim(2, 2, 7, Side::Ask, 1500, 4)); // own, middle of the FIFO
    e.apply(new_lim(3, 3, 9, Side::Ask, 1500, 5)); // other
    assert_eq!(
        e.apply(new_full(
            4,
            4,
            7,
            Side::Bid,
            1500,
            12,
            TimeInForce::Gtc,
            SelfTradePrevention::CancelResting
        )),
        vec![
            ack(4, 4),
            fill(4, 4, 1, 1500, 3, Side::Bid),
            cancelled(4, 2, 4, CancelReason::SelfTradePrevention),
            fill(4, 4, 3, 1500, 5, Side::Bid),
        ]
    );
}

fn check_duplicate_order_id<E: Engine>() {
    let mut e = eng::<E>();
    e.apply(new_lim(1, 1, 1, Side::Bid, 1500, 10));
    assert_eq!(
        e.apply(new_lim(2, 1, 1, Side::Bid, 1400, 5)),
        vec![rejected(2, 1, RejectReason::DuplicateOrderId)]
    );
}

fn check_id_reusable_after_cancel<E: Engine>() {
    let mut e = eng::<E>();
    e.apply(new_lim(1, 1, 1, Side::Bid, 1500, 10));
    e.apply(cancel(2, 1, 1));
    assert_eq!(e.apply(new_lim(3, 1, 1, Side::Bid, 1500, 10)), vec![ack(3, 1)]);
}

fn check_zero_qty<E: Engine>() {
    let mut e = eng::<E>();
    assert_eq!(
        e.apply(new_lim(1, 1, 1, Side::Bid, 1500, 0)),
        vec![rejected(1, 1, RejectReason::ZeroQty)]
    );
}

fn check_price_out_of_bounds<E: Engine>() {
    let mut e = eng::<E>();
    // TEST grid: min 1000, tick 1, 1024 levels -> max 2023.
    assert_eq!(
        e.apply(new_lim(1, 1, 1, Side::Bid, 999, 10)),
        vec![rejected(1, 1, RejectReason::PriceOutOfBounds)]
    );
    assert_eq!(
        e.apply(new_lim(2, 2, 1, Side::Bid, 2024, 10)),
        vec![rejected(2, 2, RejectReason::PriceOutOfBounds)]
    );
    // Both boundaries are valid.
    assert_eq!(e.apply(new_lim(3, 3, 1, Side::Bid, 1000, 10)), vec![ack(3, 3)]);
    assert_eq!(e.apply(new_lim(4, 4, 1, Side::Ask, 2023, 10)), vec![ack(4, 4)]);
}

fn check_price_off_tick<E: Engine>() {
    let cfg = BookConfig {
        min_price: 1_000,
        tick_size: 5,
        num_levels: 100,
        max_live_orders: 64,
    };
    let mut e = E::start(cfg);
    assert_eq!(
        e.apply(new_lim(1, 1, 1, Side::Bid, 1002, 10)),
        vec![rejected(1, 1, RejectReason::PriceOutOfBounds)]
    );
    assert_eq!(e.apply(new_lim(2, 2, 1, Side::Bid, 1005, 10)), vec![ack(2, 2)]);
}

fn check_modify_loses_priority<E: Engine>() {
    let mut e = eng::<E>();
    e.apply(new_lim(1, 1, 1, Side::Ask, 1500, 5));
    e.apply(new_lim(2, 2, 2, Side::Ask, 1500, 5));
    // Modify id 1 to the SAME price: still loses its queue position.
    assert_eq!(
        e.apply(modify(3, 1, 1, 1500, 5)),
        vec![cancelled(3, 1, 5, CancelReason::User), ack(3, 1)]
    );
    assert_eq!(
        e.apply(new_lim(4, 3, 3, Side::Bid, 1500, 5)),
        vec![ack(4, 3), fill(4, 3, 2, 1500, 5, Side::Bid)] // id 2 fills first now
    );
}

fn check_modify_rejects_leave_book_untouched<E: Engine>() {
    let mut e = eng::<E>();
    e.apply(new_lim(1, 1, 1, Side::Ask, 1500, 5));
    assert_eq!(
        e.apply(modify(2, 99, 1, 1500, 5)),
        vec![rejected(2, 99, RejectReason::UnknownOrderId)]
    );
    assert_eq!(
        e.apply(modify(3, 1, 2, 1500, 5)),
        vec![rejected(3, 1, RejectReason::WrongTrader)]
    );
    assert_eq!(
        e.apply(modify(4, 1, 1, 1500, 0)),
        vec![rejected(4, 1, RejectReason::ZeroQty)]
    );
    assert_eq!(
        e.apply(modify(5, 1, 1, 999, 5)),
        vec![rejected(5, 1, RejectReason::PriceOutOfBounds)]
    );
    // The order is still resting with its original quantity.
    assert_eq!(
        e.apply(new_lim(6, 2, 2, Side::Bid, 1500, 5)),
        vec![ack(6, 2), fill(6, 2, 1, 1500, 5, Side::Bid)]
    );
}

fn check_modify_can_cross<E: Engine>() {
    let mut e = eng::<E>();
    e.apply(new_lim(1, 1, 1, Side::Bid, 1500, 5));
    e.apply(new_lim(2, 2, 2, Side::Ask, 1600, 5));
    // Re-price the ask down onto the bid: the new leg trades immediately.
    assert_eq!(
        e.apply(modify(3, 2, 2, 1500, 5)),
        vec![
            cancelled(3, 2, 5, CancelReason::User),
            ack(3, 2),
            fill(3, 2, 1, 1500, 5, Side::Ask),
        ]
    );
}

fn check_fok_stp_cancel_aggressor_blocks<E: Engine>() {
    let mut e = eng::<E>();
    e.apply(new_lim(1, 1, 7, Side::Ask, 1500, 5)); // own order at the front
    e.apply(new_lim(2, 2, 8, Side::Ask, 1500, 10));
    // CancelAggressor: the aggressor would die at its own order before
    // reaching the 10 lots behind it -> unfillable.
    assert_eq!(
        e.apply(new_full(
            3,
            3,
            7,
            Side::Bid,
            1500,
            8,
            TimeInForce::Fok,
            SelfTradePrevention::CancelAggressor
        )),
        vec![rejected(3, 3, RejectReason::FokUnfillable)]
    );
    // CancelResting: the own order is skipped (cancelled), the 10 lots
    // behind it are reachable -> fills.
    assert_eq!(
        e.apply(new_full(
            4,
            4,
            7,
            Side::Bid,
            1500,
            8,
            TimeInForce::Fok,
            SelfTradePrevention::CancelResting
        )),
        vec![
            ack(4, 4),
            cancelled(4, 1, 5, CancelReason::SelfTradePrevention),
            fill(4, 4, 2, 1500, 8, Side::Bid),
        ]
    );
}

fn check_arena_full<E: Engine>() {
    let cfg = BookConfig {
        min_price: 1_000,
        tick_size: 1,
        num_levels: 64,
        max_live_orders: 2,
    };
    let mut e = E::start(cfg);
    e.apply(new_lim(1, 1, 1, Side::Bid, 1010, 1));
    e.apply(new_lim(2, 2, 1, Side::Bid, 1011, 1));
    assert_eq!(
        e.apply(new_lim(3, 3, 1, Side::Bid, 1012, 1)),
        vec![rejected(3, 3, RejectReason::ArenaFull)]
    );
    // Freeing a slot makes room again.
    e.apply(cancel(4, 1, 1));
    assert_eq!(e.apply(new_lim(5, 4, 1, Side::Bid, 1012, 1)), vec![ack(5, 4)]);
}

#[test]
fn rest_and_ack() {
    check_rest_and_ack::<ReferenceBook>();
    check_rest_and_ack::<FastBook>();
}

#[test]
fn simple_cross_full() {
    check_simple_cross_full::<ReferenceBook>();
    check_simple_cross_full::<FastBook>();
}

#[test]
fn partial_fill_aggressor_rests() {
    check_partial_fill_aggressor_rests::<ReferenceBook>();
    check_partial_fill_aggressor_rests::<FastBook>();
}

#[test]
fn partial_fill_maker_remains() {
    check_partial_fill_maker_remains::<ReferenceBook>();
    check_partial_fill_maker_remains::<FastBook>();
}

#[test]
fn multi_level_sweep() {
    check_multi_level_sweep::<ReferenceBook>();
    check_multi_level_sweep::<FastBook>();
}

#[test]
fn price_improvement() {
    check_price_improvement::<ReferenceBook>();
    check_price_improvement::<FastBook>();
}

#[test]
fn fifo_priority() {
    check_fifo_priority::<ReferenceBook>();
    check_fifo_priority::<FastBook>();
}

#[test]
fn cancel_resting() {
    check_cancel_resting::<ReferenceBook>();
    check_cancel_resting::<FastBook>();
}

#[test]
fn cancel_nonexistent() {
    check_cancel_nonexistent::<ReferenceBook>();
    check_cancel_nonexistent::<FastBook>();
}

#[test]
fn cancel_wrong_trader() {
    check_cancel_wrong_trader::<ReferenceBook>();
    check_cancel_wrong_trader::<FastBook>();
}

#[test]
fn cancel_after_partial_fill() {
    check_cancel_after_partial_fill::<ReferenceBook>();
    check_cancel_after_partial_fill::<FastBook>();
}

#[test]
fn ioc_partial() {
    check_ioc_partial::<ReferenceBook>();
    check_ioc_partial::<FastBook>();
}

#[test]
fn ioc_no_cross() {
    check_ioc_no_cross::<ReferenceBook>();
    check_ioc_no_cross::<FastBook>();
}

#[test]
fn fok_reject_leaves_book_untouched() {
    check_fok_reject_leaves_book_untouched::<ReferenceBook>();
    check_fok_reject_leaves_book_untouched::<FastBook>();
}

#[test]
fn fok_fill_across_levels() {
    check_fok_fill_across_levels::<ReferenceBook>();
    check_fok_fill_across_levels::<FastBook>();
}

#[test]
fn stp_none_allows_self_trade() {
    check_stp_none_allows_self_trade::<ReferenceBook>();
    check_stp_none_allows_self_trade::<FastBook>();
}

#[test]
fn stp_cancel_resting() {
    check_stp_cancel_resting::<ReferenceBook>();
    check_stp_cancel_resting::<FastBook>();
}

#[test]
fn stp_cancel_aggressor() {
    check_stp_cancel_aggressor::<ReferenceBook>();
    check_stp_cancel_aggressor::<FastBook>();
}

#[test]
fn stp_cancel_both() {
    check_stp_cancel_both::<ReferenceBook>();
    check_stp_cancel_both::<FastBook>();
}

#[test]
fn stp_middle_of_fifo() {
    check_stp_middle_of_fifo::<ReferenceBook>();
    check_stp_middle_of_fifo::<FastBook>();
}

#[test]
fn duplicate_order_id() {
    check_duplicate_order_id::<ReferenceBook>();
    check_duplicate_order_id::<FastBook>();
}

#[test]
fn id_reusable_after_cancel() {
    check_id_reusable_after_cancel::<ReferenceBook>();
    check_id_reusable_after_cancel::<FastBook>();
}

#[test]
fn zero_qty() {
    check_zero_qty::<ReferenceBook>();
    check_zero_qty::<FastBook>();
}

#[test]
fn price_out_of_bounds() {
    check_price_out_of_bounds::<ReferenceBook>();
    check_price_out_of_bounds::<FastBook>();
}

#[test]
fn price_off_tick() {
    check_price_off_tick::<ReferenceBook>();
    check_price_off_tick::<FastBook>();
}

#[test]
fn modify_loses_priority() {
    check_modify_loses_priority::<ReferenceBook>();
    check_modify_loses_priority::<FastBook>();
}

#[test]
fn modify_rejects_leave_book_untouched() {
    check_modify_rejects_leave_book_untouched::<ReferenceBook>();
    check_modify_rejects_leave_book_untouched::<FastBook>();
}

#[test]
fn modify_can_cross() {
    check_modify_can_cross::<ReferenceBook>();
    check_modify_can_cross::<FastBook>();
}

#[test]
fn fok_stp_cancel_aggressor_blocks() {
    check_fok_stp_cancel_aggressor_blocks::<ReferenceBook>();
    check_fok_stp_cancel_aggressor_blocks::<FastBook>();
}

#[test]
fn arena_full() {
    check_arena_full::<ReferenceBook>();
    check_arena_full::<FastBook>();
}
