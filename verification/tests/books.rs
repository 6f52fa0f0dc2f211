//! Books as a whole: snapshots, validation, the grid, and single laws on
//! concrete values.

use tessera::book::OrderBook;
use tessera::buffer::EventBuffer;
use tessera::config::BookConfig;
use tessera::events::{CancelReason, InputEvent, OutputEvent, RejectReason};
use tessera::reference::ReferenceBook;
use tessera::snapshot::{SnapOrder, Snapshot};
use tessera::types::{OrderId, Price, Qty, SelfTradePrevention, SeqNo, Side, TimeInForce, TraderId};

fn new_full(
    seq: u64,
    id: u64,
    trader: u32,
    side: Side,
    price: i64,
    qty: u64,
    tif: TimeInForce,
    stp: SelfTradePrevention,
) -> InputEvent {
    InputEvent::New {
        seq: SeqNo(seq),
        order_id: OrderId(id),
        trader: TraderId(trader),
        side,
        price: Price(price),
        qty: Qty(qty),
        tif,
        stp,
    }
}

/// Plain GTC limit order, no self-trade prevention.
fn new_lim(seq: u64, id: u64, trader: u32, side: Side, price: i64, qty: u64) -> InputEvent {
    new_tif(seq, id, trader, side, price, qty, TimeInForce::Gtc)
}

fn new_tif(
    seq: u64,
    id: u64,
    trader: u32,
    side: Side,
    price: i64,
    qty: u64,
    tif: TimeInForce,
) -> InputEvent {
    let stp = SelfTradePrevention::Disabled;
    new_full(seq, id, trader, side, price, qty, tif, stp)
}

fn cancel(seq: u64, id: u64, trader: u32) -> InputEvent {
    InputEvent::Cancel {
        seq: SeqNo(seq),
        order_id: OrderId(id),
        trader: TraderId(trader),
    }
}

fn modify(seq: u64, id: u64, trader: u32, price: i64, qty: u64) -> InputEvent {
    InputEvent::Modify {
        seq: SeqNo(seq),
        order_id: OrderId(id),
        trader: TraderId(trader),
        new_price: Price(price),
        new_qty: Qty(qty),
    }
}

fn ack(seq: u64, id: u64) -> OutputEvent {
    OutputEvent::Ack {
        seq: SeqNo(seq),
        order_id: OrderId(id),
    }
}

fn fill(
    seq: u64,
    taker: u64,
    maker: u64,
    price: i64,
    qty: u64,
    taker_side: Side,
) -> OutputEvent {
    OutputEvent::Fill {
        seq: SeqNo(seq),
        taker: OrderId(taker),
        maker: OrderId(maker),
        price: Price(price),
        qty: Qty(qty),
        taker_side,
    }
}

fn cancelled(seq: u64, id: u64, remaining: u64, reason: CancelReason) -> OutputEvent {
    OutputEvent::Cancelled {
        seq: SeqNo(seq),
        order_id: OrderId(id),
        remaining: Qty(remaining),
        reason,
    }
}

fn rejected(seq: u64, id: u64, reason: RejectReason) -> OutputEvent {
    OutputEvent::Rejected {
        seq: SeqNo(seq),
        order_id: OrderId(id),
        reason,
    }
}

fn apply(book: &mut OrderBook, ev: InputEvent) -> Vec<OutputEvent> {
    let mut buf = EventBuffer::for_book(book.config());
    book.apply(ev, &mut buf);
    buf.as_slice().to_vec()
}

fn order(id: u64, side: Side, price: i64, remaining: u64) -> SnapOrder {
    SnapOrder {
        order_id: id,
        trader: 1,
        side,
        price,
        remaining,
        original_qty: remaining,
        stp: SelfTradePrevention::Disabled,
    }
}

fn snap(orders: Vec<SnapOrder>) -> Snapshot {
    Snapshot {
        cfg: BookConfig {
            min_price: 1_000,
            tick_size: 5,
            num_levels: 10,
            max_live_orders: 2,
        },
        orders,
    }
}

#[test]
fn each_snapshot_fault_has_its_error() {
    let bad = snap(vec![order(1, Side::Bid, 1_001, 5)]);
    assert_eq!(
        OrderBook::restore(&bad).err(),
        Some("snapshot order price off the grid")
    );
    let bad = snap(vec![order(1, Side::Bid, 1_005, 0)]);
    assert_eq!(
        OrderBook::restore(&bad).err(),
        Some("snapshot contains a zero-qty order")
    );
    let bad = snap(vec![
        order(1, Side::Bid, 1_005, 1),
        order(1, Side::Bid, 1_010, 1),
    ]);
    assert_eq!(
        OrderBook::restore(&bad).err(),
        Some("snapshot contains a duplicate order id")
    );
    let bad = snap(vec![
        order(1, Side::Bid, 1_005, 1),
        order(2, Side::Bid, 1_005, 1),
        order(3, Side::Bid, 1_005, 1),
    ]);
    assert_eq!(
        OrderBook::restore(&bad).err(),
        Some("snapshot exceeds book capacity")
    );
    assert!(OrderBook::restore(&snap(vec![])).is_ok());
}

/// Restoring links without matching, so a snapshot can describe a crossed
/// book; the validator says so.
#[test]
fn a_crossed_snapshot_is_found_out() {
    let crossed = snap(vec![
        order(1, Side::Bid, 1_010, 1),
        order(2, Side::Ask, 1_005, 1),
    ]);
    let book = OrderBook::restore(&crossed).ok().unwrap();
    assert_eq!(book.validate(), Err("I1: book is crossed"));
    let locked = snap(vec![
        order(1, Side::Bid, 1_010, 1),
        order(2, Side::Ask, 1_010, 1),
    ]);
    let book = OrderBook::restore(&locked).ok().unwrap();
    assert_eq!(book.validate(), Err("I1: book is crossed"));
    let fine = snap(vec![
        order(1, Side::Bid, 1_005, 1),
        order(2, Side::Ask, 1_010, 1),
    ]);
    let book = OrderBook::restore(&fine).ok().unwrap();
    assert_eq!(book.validate(), Ok(()));
}

/// What a snapshot lists, a restored book lists again: levels ascending,
/// oldest first, everything about every order.
#[test]
fn snapshots_round_trip() {
    let mut book = OrderBook::new(BookConfig::test());
    apply(&mut book, new_lim(1, 4, 1, Side::Bid, 1500, 7));
    apply(&mut book, new_lim(2, 3, 2, Side::Bid, 1500, 8));
    apply(&mut book, new_lim(3, 2, 3, Side::Bid, 1400, 9));
    apply(
        &mut book,
        new_full(
            4,
            1,
            4,
            Side::Ask,
            1500,
            5,
            TimeInForce::Gtc,
            SelfTradePrevention::CancelBoth,
        ),
    );
    apply(
        &mut book,
        new_full(
            5,
            9,
            4,
            Side::Ask,
            1600,
            6,
            TimeInForce::Gtc,
            SelfTradePrevention::CancelBoth,
        ),
    );
    let s = book.snapshot();
    let ids: Vec<(u64, u64, u64)> = s
        .orders
        .iter()
        .map(|o| (o.order_id, o.remaining, o.original_qty))
        .collect();
    assert_eq!(ids, vec![(2, 9, 9), (4, 2, 7), (3, 8, 8), (9, 6, 6)]);
    assert_eq!(s.orders[3].stp, SelfTradePrevention::CancelBoth);
    assert_eq!(s.orders[3].side, Side::Ask);
    let again = OrderBook::restore(&s).ok().unwrap();
    assert_eq!(again.snapshot().orders, s.orders);
    assert_eq!(again.snapshot().cfg, s.cfg);
    assert_eq!(again.state_hash(), book.state_hash());
}

/// Restoring sorts a snapshot by side and price and keeps the order at each
/// price; the book is valid where every bid is below every ask.
#[test]
fn restoring_sorts_stably() {
    let s = Snapshot {
        cfg: BookConfig::test(),
        orders: vec![
            order(1, Side::Ask, 1_600, 1),
            order(2, Side::Bid, 1_500, 2),
            order(3, Side::Ask, 1_550, 3),
            order(4, Side::Bid, 1_400, 4),
            order(5, Side::Bid, 1_500, 5),
            order(6, Side::Ask, 1_600, 6),
        ],
    };
    let book = OrderBook::restore(&s).ok().unwrap();
    let mut want = s.orders.clone();
    want.sort_by_key(|o| (o.side.to_u8(), o.price));
    let got = book.snapshot().orders;
    assert_eq!(got, want);
    let ids: Vec<u64> = got.iter().map(|o| o.order_id).collect();
    assert_eq!(ids, vec![4, 2, 5, 3, 1, 6]);
    assert_eq!(*book.config(), s.cfg);
    assert_eq!(book.validate(), Ok(()));
}

#[test]
fn prices_map_onto_levels() {
    let cfg = BookConfig {
        min_price: -10,
        tick_size: 5,
        num_levels: 4,
        max_live_orders: 1,
    };
    assert_eq!(cfg.price_to_idx(Price(-10)), Some(0));
    assert_eq!(cfg.price_to_idx(Price(5)), Some(3));
    assert_eq!(cfg.price_to_idx(Price(10)), None);
    assert_eq!(cfg.price_to_idx(Price(-15)), None);
    assert_eq!(cfg.price_to_idx(Price(-9)), None);
    assert_eq!(cfg.price_to_idx(Price(i64::MAX)), None);
    assert_eq!(cfg.price_to_idx(Price(i64::MIN)), None);
    for idx in 0..4 {
        assert_eq!(cfg.price_to_idx(cfg.idx_to_price(idx)), Some(idx));
    }
    assert_eq!(cfg.max_price(), Price(5));
    assert!(cfg.is_usable());
    assert!(!BookConfig {
        tick_size: 0,
        ..cfg
    }
    .is_usable());
    assert!(!BookConfig {
        max_live_orders: u32::MAX,
        ..cfg
    }
    .is_usable());
    let t = BookConfig::test();
    assert_eq!(
        (t.min_price, t.tick_size, t.num_levels, t.max_live_orders),
        (1_000, 1, 1_024, 4_096)
    );
}

/// A buffer that is too small keeps the first events.
#[test]
fn a_small_buffer_drops_what_it_cannot_hold() {
    let mut b = EventBuffer::with_capacity(2);
    assert!(b.is_empty());
    b.push(ack(1, 1));
    b.push(ack(1, 2));
    b.push(ack(1, 3));
    assert_eq!(b.as_slice(), &[ack(1, 1), ack(1, 2)]);
    assert_eq!(b.len(), 2);
    b.clear();
    assert!(b.is_empty());
}

/// A modify is a cancel and a new order with the same rules.
#[test]
fn a_modify_is_a_cancel_and_a_new_order() {
    let mut a = OrderBook::new(BookConfig::test());
    let mut b = OrderBook::new(BookConfig::test());
    for book in [&mut a, &mut b] {
        apply(book, new_lim(1, 1, 1, Side::Bid, 1500, 5));
        apply(book, new_lim(2, 2, 2, Side::Ask, 1600, 5));
        apply(book, new_lim(3, 3, 3, Side::Bid, 1500, 5));
    }
    let one = apply(&mut a, modify(4, 1, 1, 1600, 9));
    let mut two = apply(&mut b, cancel(4, 1, 1));
    two.extend(apply(&mut b, new_lim(4, 1, 1, Side::Bid, 1600, 9)));
    assert_eq!(one, two);
    assert_eq!(
        one,
        vec![
            cancelled(4, 1, 5, CancelReason::User),
            ack(4, 1),
            fill(4, 1, 2, 1600, 5, Side::Bid)
        ]
    );
    assert_eq!(a.state_hash(), b.state_hash());
}

/// Only its owner touches an order.
#[test]
fn strangers_touch_nothing() {
    let mut book = OrderBook::new(BookConfig::test());
    apply(&mut book, new_lim(1, 1, 1, Side::Bid, 1500, 5));
    let before = book.state_hash();
    let wrong = RejectReason::WrongTrader;
    assert_eq!(apply(&mut book, cancel(2, 1, 9)), vec![rejected(2, 1, wrong)]);
    assert_eq!(
        apply(&mut book, modify(3, 1, 9, 1500, 9)),
        vec![rejected(3, 1, wrong)]
    );
    assert_eq!(book.state_hash(), before);
}

/// The reference can be asked for an order by its id.
#[test]
fn the_reference_finds_orders() {
    let mut r = ReferenceBook::new(BookConfig::test());
    r.apply(new_lim(7, 1, 3, Side::Bid, 1500, 5));
    r.apply(new_lim(8, 2, 3, Side::Ask, 1600, 6));
    r.apply(new_lim(9, 3, 4, Side::Ask, 1500, 2));
    let o = r.find(OrderId(1)).unwrap();
    assert_eq!((o.price.0, o.remaining, o.seq, o.trader.0), (1500, 3, 7, 3));
    assert!(r.find(OrderId(3)).is_none());
    assert_eq!(r.side_orders(Side::Ask).len(), 1);
    assert_eq!(r.side_orders(Side::Bid).len(), 1);
    assert_eq!(*r.config(), BookConfig::test());
    assert_eq!(r.live_count(), 2);
}

/// Fill-or-kill fills all of it or nothing.
#[test]
fn fill_or_kill_is_all_or_nothing() {
    let mut book = OrderBook::new(BookConfig::test());
    apply(&mut book, new_lim(1, 1, 1, Side::Ask, 1500, 4));
    apply(&mut book, new_lim(2, 2, 2, Side::Ask, 1501, 6));
    let before = book.state_hash();
    assert_eq!(
        apply(&mut book, new_tif(3, 3, 3, Side::Bid, 1501, 11, TimeInForce::Fok)),
        vec![rejected(3, 3, RejectReason::FokUnfillable)]
    );
    assert_eq!(book.state_hash(), before);
    assert_eq!(
        apply(&mut book, new_tif(4, 3, 3, Side::Bid, 1501, 10, TimeInForce::Fok)),
        vec![
            ack(4, 3),
            fill(4, 3, 1, 1500, 4, Side::Bid),
            fill(4, 3, 2, 1501, 6, Side::Bid)
        ]
    );
    assert_eq!(book.live_count(), 0);
}

/// The unfilled rest of a modified order stands last at its new price, on its
/// old side, even where the price is the old one.
#[test]
fn a_modified_order_stands_last() {
    let mut book = OrderBook::new(BookConfig::test());
    apply(&mut book, new_lim(1, 1, 1, Side::Bid, 1500, 5));
    apply(&mut book, new_lim(2, 2, 2, Side::Bid, 1500, 6));
    let mut buf = EventBuffer::for_book(&BookConfig::test());
    book.apply_modify(SeqNo(3), OrderId(1), TraderId(1), Price(1500), Qty(4), &mut buf);
    assert_eq!(
        buf.as_slice(),
        &[
            OutputEvent::Cancelled {
                seq: SeqNo(3),
                order_id: OrderId(1),
                remaining: Qty(5),
                reason: CancelReason::User,
            },
            OutputEvent::Ack {
                seq: SeqNo(3),
                order_id: OrderId(1),
            },
        ]
    );
    let queue: Vec<(u64, u64)> = book
        .snapshot()
        .orders
        .iter()
        .map(|o| (o.order_id, o.remaining))
        .collect();
    assert_eq!(queue, vec![(2, 6), (1, 4)]);
}

/// Each side links as many slots as it has orders, and no slot twice.
#[test]
fn the_sides_share_no_slot() {
    let cfg = BookConfig::test();
    let mut book = OrderBook::new(cfg);
    for id in 0..7u64 {
        let (side, price) = if id < 3 {
            (Side::Bid, 1_400)
        } else {
            (Side::Ask, 1_600)
        };
        apply(&mut book, new_lim(id + 1, id, 1, side, price, 5));
    }
    let bids = book.validate_side(Side::Bid).unwrap();
    let asks = book.validate_side(Side::Ask).unwrap();
    assert_eq!(bids.len(), cfg.max_live_orders as usize);
    assert_eq!(asks.len(), cfg.max_live_orders as usize);
    assert_eq!(bids.iter().filter(|&&f| f).count(), 3);
    assert_eq!(asks.iter().filter(|&&f| f).count(), 4);
    assert!(bids.iter().zip(&asks).all(|(b, a)| !(*b && *a)));
}

/// What an order came with is what it still wants and what it has traded since
/// it was acknowledged.
#[test]
fn every_order_accounts_for_what_it_came_with() {
    let mut book = OrderBook::new(BookConfig::test());
    let mut log = Vec::new();
    for ev in [
        new_lim(1, 1, 1, Side::Bid, 1500, 10),
        new_lim(2, 2, 2, Side::Ask, 1500, 4),
        modify(3, 1, 1, 1500, 8),
        new_lim(4, 3, 3, Side::Ask, 1500, 3),
        new_lim(5, 4, 4, Side::Ask, 1505, 9),
        new_lim(6, 5, 5, Side::Bid, 1505, 11),
    ] {
        log.extend(apply(&mut book, ev));
    }
    let orders = book.snapshot().orders;
    for o in &orders {
        let mut filled = 0;
        for ev in &log {
            match *ev {
                OutputEvent::Ack { order_id, .. } if order_id.0 == o.order_id => filled = 0,
                OutputEvent::Fill { taker, maker, qty, .. } => {
                    if taker.0 == o.order_id || maker.0 == o.order_id {
                        filled += qty.0;
                    }
                }
                _ => {}
            }
        }
        assert_eq!(o.original_qty, o.remaining + filled);
    }
    let accounts: Vec<(u64, u64, u64)> = orders
        .iter()
        .map(|o| (o.order_id, o.original_qty, o.remaining))
        .collect();
    assert_eq!(accounts, vec![(1, 8, 5), (5, 11, 2)]);
}
