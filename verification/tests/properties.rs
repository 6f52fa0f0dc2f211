//! Property-based differential testing: seeded structured operation streams
//! run through BOTH engines.

use std::collections::HashMap;
use tessera::book::OrderBook;
use tessera::buffer::EventBuffer;
use tessera::config::BookConfig;
use tessera::differential::{compare, differential, fuzz_config, judge, Divergence, Lockstep, RawOp};
use tessera::events::{InputEvent, OutputEvent, RejectReason};
use tessera::reference::ReferenceBook;
use tessera::rng::Pcg32;
use tessera::types::{OrderId, Price, Qty, SelfTradePrevention, SeqNo, Side, TimeInForce, TraderId};

fn new_full(
    seq: u64,
    id: u64,
    trader: u32,
    side: Side,
    price: i64,
    qty: u64,
    tif: TimeInForce,
    stp: SelfTradePrevention,
) -> InputEvent {
    InputEvent::New {
        seq: SeqNo(seq),
        order_id: OrderId(id),
        trader: TraderId(trader),
        side,
        price: Price(price),
        qty: Qty(qty),
        tif,
        stp,
    }
}

/// Plain GTC limit order, no self-trade prevention.
fn new_lim(seq: u64, id: u64, trader: u32, side: Side, price: i64, qty: u64) -> InputEvent {
    new_tif(seq, id, trader, side, price, qty, TimeInForce::Gtc)
}

fn new_tif(
    seq: u64,
    id: u64,
    trader: u32,
    side: Side,
    price: i64,
    qty: u64,
    tif: TimeInForce,
) -> InputEvent {
    let stp = SelfTradePrevention::Disabled;
    new_full(seq, id, trader, side, price, qty, tif, stp)
}

fn cancel(seq: u64, id: u64, trader: u32) -> InputEvent {
    InputEvent::Cancel {
        seq: SeqNo(seq),
        order_id: OrderId(id),
        trader: TraderId(trader),
    }
}

fn modify(seq: u64, id: u64, trader: u32, price: i64, qty: u64) -> InputEvent {
    InputEvent::Modify {
        seq: SeqNo(seq),
        order_id: OrderId(id),
        trader: TraderId(trader),
        new_price: Price(price),
        new_qty: Qty(qty),
    }
}

fn ack(seq: u64, id: u64) -> OutputEvent {
    OutputEvent::Ack {
        seq: SeqNo(seq),
        order_id: OrderId(id),
    }
}

fn rejected(seq: u64, id: u64, reason: RejectReason) -> OutputEvent {
    OutputEvent::Rejected {
        seq: SeqNo(seq),
        order_id: OrderId(id),
        reason,
    }
}

/// Small config so capacity, boundaries, and level-emptying all happen
/// inside short sequences.
fn cfg() -> BookConfig {
    BookConfig {
        min_price: 100,
        tick_size: 1,
        num_levels: 128,
        max_live_orders: 64,
    }
}

/// The engine with a buffer of its own.
struct FastBook {
    book: OrderBook,
    buf: EventBuffer,
}

impl FastBook {
    fn new(cfg: BookConfig) -> Self {
        FastBook {
            book: OrderBook::new(cfg),
            buf: EventBuffer::for_book(&cfg),
        }
    }

    fn apply(&mut self, ev: InputEvent) -> Vec<OutputEvent> {
        self.buf.clear();
        self.book.apply(ev, &mut self.buf);
        self.buf.as_slice().to_vec()
    }
}

fn qty(rng: &mut Pcg32) -> u64 {
    match rng.below(13) {
        0 => 0,
        1 => u64::MAX,
        2 => u64::MAX / 2,
        3 | 4 => 1 + rng.below(4_999),
        _ => 1 + rng.below(49),
    }
}

/// A structured raw operation. Small id/trader pools force collisions,
/// duplicates, reuse, and self-trades; price offsets straddle the grid
/// edges; quantities include zero, exact-fill sizes, and u64::MAX.
fn raw_op(rng: &mut Pcg32) -> RawOp {
    let id = rng.below(24) as u8;
    let trader = rng.below(4) as u8;
    let price_off = rng.range_i64(-2, 130) as i16;
    match rng.below(10) {
        0..=4 => RawOp::New {
            id,
            trader,
            bid: rng.chance(50),
            price_off,
            qty: qty(rng),
            tif: rng.below(256) as u8,
            stp: rng.below(256) as u8,
        },
        5..=8 => RawOp::Cancel { id, trader },
        _ => RawOp::Modify {
            id,
            trader,
            price_off,
            qty: qty(rng),
        },
    }
}

fn ops(rng: &mut Pcg32, most: u64) -> Vec<RawOp> {
    let n = 1 + rng.below(most);
    (0..n).map(|_| raw_op(rng)).collect()
}

/// THE differential property: the two engines must be observationally
/// identical, event by event, and the engine's invariants and canonical hash
/// must hold after every step.
#[test]
fn engines_agree() {
    let mut rng = Pcg32::new(1);
    for _ in 0..512 {
        let ops = ops(&mut rng, 299);
        let mut fast = FastBook::new(cfg());
        let mut oracle = ReferenceBook::new(cfg());
        for (i, op) in ops.iter().enumerate() {
            let ev = op.to_event(i as u64);
            let got = fast.apply(ev);
            let expected = oracle.apply(ev);
            assert_eq!(got, expected, "output divergence at event {i}: {ev:?}");
            assert_eq!(fast.book.validate(), Ok(()), "after event {i}: {ev:?}");
            assert_eq!(
                fast.book.state_hash(),
                oracle.state_hash(),
                "state hash divergence at event {i}: {ev:?}"
            );
            assert_eq!(fast.book.live_count() as usize, oracle.live_count());
            assert_eq!(fast.book.best_bid(), oracle.best_bid());
            assert_eq!(fast.book.best_ask(), oracle.best_ask());
        }
        // And the harness that does all of this in one call.
        assert_eq!(differential(&ops).ok(), Some(oracle.state_hash()));
    }
}

/// What an order id was asked for, and what became of it.
#[derive(Default, Clone, Copy)]
struct Ledger {
    submitted: u128,
    filled: u128,
    cancelled_rem: u128,
}

/// Conservation: for every order, quantity in == quantity out.
/// original == filled + cancelled-remainder + still-resting.
#[test]
fn conservation() {
    let mut rng = Pcg32::new(2);
    for _ in 0..512 {
        let mut fast = FastBook::new(cfg());
        // Ledger per order id. Reused ids keep adding to both sides of it.
        let mut ledgers: HashMap<u64, Ledger> = HashMap::new();
        let mut submitted_qty: HashMap<u64, u64> = HashMap::new();
        for (i, op) in ops(&mut rng, 299).iter().enumerate() {
            let ev = op.to_event(i as u64);
            // Remember what each New/Modify *asked for*, keyed by id.
            match ev {
                InputEvent::New { order_id, qty, .. } => {
                    submitted_qty.insert(order_id.0, qty.0);
                }
                InputEvent::Modify {
                    order_id, new_qty, ..
                } => {
                    submitted_qty.insert(order_id.0, new_qty.0);
                }
                InputEvent::Cancel { .. } => {}
            }
            for out in fast.apply(ev) {
                match out {
                    OutputEvent::Ack { order_id, .. } => {
                        let l = ledgers.entry(order_id.0).or_default();
                        l.submitted += submitted_qty[&order_id.0] as u128;
                    }
                    OutputEvent::Fill {
                        taker, maker, qty, ..
                    } => {
                        ledgers.entry(taker.0).or_default().filled += qty.0 as u128;
                        ledgers.entry(maker.0).or_default().filled += qty.0 as u128;
                    }
                    OutputEvent::Cancelled {
                        order_id,
                        remaining,
                        ..
                    } => {
                        ledgers.entry(order_id.0).or_default().cancelled_rem +=
                            remaining.0 as u128;
                    }
                    OutputEvent::Rejected { .. } => {}
                }
            }
        }

        // Whatever is still resting closes each ledger.
        let snap = fast.book.snapshot();
        for o in &snap.orders {
            ledgers.entry(o.order_id).or_default().cancelled_rem += o.remaining as u128;
        }
        for (id, l) in ledgers {
            assert_eq!(
                l.submitted,
                l.filled + l.cancelled_rem,
                "conservation violated for order id {id}"
            );
        }
    }
}

/// The book never crosses, observed through the public API after every event
/// (belt to validate()'s suspenders).
#[test]
fn book_never_crosses() {
    let mut rng = Pcg32::new(3);
    for _ in 0..512 {
        let mut fast = FastBook::new(cfg());
        for (i, op) in ops(&mut rng, 199).iter().enumerate() {
            fast.apply(op.to_event(i as u64));
            if let (Some(bb), Some(ba)) = (fast.book.best_bid(), fast.book.best_ask()) {
                assert!(bb.0 < ba.0, "crossed book after event {i}");
            }
        }
    }
}

/// FIFO priority: N same-price resting orders fill strictly in arrival order
/// under any sequence of takers.
#[test]
fn fifo_priority_holds() {
    let mut rng = Pcg32::new(4);
    for _ in 0..512 {
        let makers = 2 + rng.below(10);
        let takers = 1 + rng.below(7);
        let mut fast = FastBook::new(cfg());
        let price = cfg().min_price + 50;
        let mut seq = 0u64;
        for m in 0..makers {
            seq += 1;
            fast.apply(new_lim(seq, m + 1, 1, Side::Ask, price, 10));
        }
        let mut last_filled_maker = 0u64;
        for t in 0..takers {
            seq += 1;
            let q = 1 + rng.below(39);
            let ioc = TimeInForce::Ioc;
            let out = fast.apply(new_tif(seq, 1000 + t, 2, Side::Bid, price, q, ioc));
            for ev in out {
                if let OutputEvent::Fill { maker, .. } = ev {
                    assert!(maker.0 >= last_filled_maker);
                    last_filled_maker = maker.0;
                }
            }
        }
    }
}

/// A rejected FOK leaves the book byte-identical (hash-checked).
#[test]
fn fok_reject_is_a_pure_noop() {
    let mut rng = Pcg32::new(5);
    let mut rejects = 0;
    for _ in 0..512 {
        let mut fast = FastBook::new(cfg());
        for (i, op) in ops(&mut rng, 99).iter().enumerate() {
            fast.apply(op.to_event(i as u64));
        }
        let before = fast.book.state_hash();
        let side = Side::from_u8(rng.below(2) as u8);
        let price = cfg().min_price + rng.range_i64(-2, 130);
        let q = 1 + rng.below(9_999);
        let out = fast.apply(new_tif(9_999, 55_555, 9, side, price, q, TimeInForce::Fok));
        if out.contains(&rejected(9_999, 55_555, RejectReason::FokUnfillable)) {
            rejects += 1;
            assert_eq!(out.len(), 1, "reject must be the only event");
            assert_eq!(fast.book.state_hash(), before, "rejected FOK mutated the book");
        }
    }
    assert!(rejects > 0);
}

/// IOC never rests: after any IOC, its id is unknown to Cancel.
#[test]
fn ioc_never_rests() {
    let mut rng = Pcg32::new(6);
    for _ in 0..512 {
        let mut fast = FastBook::new(cfg());
        for (i, op) in ops(&mut rng, 99).iter().enumerate() {
            fast.apply(op.to_event(i as u64));
        }
        let side = Side::from_u8(rng.below(2) as u8);
        let price = cfg().min_price + rng.range_i64(0, 128);
        let q = 1 + rng.below(9_999);
        fast.apply(new_tif(9_998, 44_444, 9, side, price, q, TimeInForce::Ioc));
        assert_eq!(
            fast.apply(cancel(9_999, 44_444, 9)),
            vec![rejected(9_999, 44_444, RejectReason::UnknownOrderId)]
        );
    }
}

/// The reference engine stays sound for sequence numbers in any order.
#[test]
fn the_reference_stays_sound() {
    let mut rng = Pcg32::new(9);
    for _ in 0..128 {
        let mut oracle = ReferenceBook::new(cfg());
        for op in ops(&mut rng, 299) {
            oracle.apply(op.to_event(rng.below(50)));
            let (bids, asks) = (oracle.side_orders(Side::Bid), oracle.side_orders(Side::Ask));
            for w in bids.windows(2) {
                assert!((-w[0].price.0, w[0].seq) <= (-w[1].price.0, w[1].seq));
            }
            for w in asks.windows(2) {
                assert!((w[0].price.0, w[0].seq) <= (w[1].price.0, w[1].seq));
            }
            let mut ids: Vec<u64> = Vec::new();
            for o in bids.iter().chain(asks) {
                assert!(0 < o.remaining && o.remaining <= o.original);
                assert!(cfg().price_to_idx(o.price).is_some());
                ids.push(o.id.0);
            }
            let n = ids.len();
            ids.sort_unstable();
            ids.dedup();
            assert_eq!(ids.len(), n);
            assert_eq!(oracle.live_count(), n);
            assert!(n <= cfg().max_live_orders as usize);
            if let (Some(b), Some(a)) = (oracle.best_bid(), oracle.best_ask()) {
                assert!(b.0 < a.0);
            }
        }
    }
}

/// No answer outgrows a buffer made for the book.
#[test]
fn answers_fit_the_buffer() {
    let mut rng = Pcg32::new(7);
    for _ in 0..256 {
        let mut fast = FastBook::new(cfg());
        let mut outputs = 0;
        let mut inputs = 0;
        for (i, op) in ops(&mut rng, 299).iter().enumerate() {
            let live = fast.book.live_count() as usize;
            let ev = op.to_event(i as u64);
            let out = fast.apply(ev);
            assert!(out.len() <= live + 8);
            for o in &out {
                let seq = match *o {
                    OutputEvent::Ack { seq, .. } => seq,
                    OutputEvent::Fill { seq, .. } => seq,
                    OutputEvent::Cancelled { seq, .. } => seq,
                    OutputEvent::Rejected { seq, .. } => seq,
                };
                assert_eq!(seq, ev.seq());
            }
            inputs += 1;
            outputs += out.len();
            assert!(outputs <= 3 * inputs);
        }
    }
}

/// The harness on shapes that vary capacity pressure, tick alignment, and
/// grid width.
#[test]
fn streams_compare_clean_on_every_shape() {
    let shapes = [
        (1_000, 1, 256, 512),
        (-500, 3, 128, 128),
        (0, 1, 65, 16),
    ];
    for (k, (min_price, tick_size, num_levels, max_live_orders)) in shapes.into_iter().enumerate() {
        let cfg = BookConfig {
            min_price,
            tick_size,
            num_levels,
            max_live_orders,
        };
        let mut rng = Pcg32::new(k as u64);
        let log: Vec<InputEvent> = (0..3_000u64)
            .map(|seq| {
                let id = rng.below(60);
                let trader = rng.below(4) as u32;
                let off = rng.range_i64(-2, num_levels as i64 * tick_size + 2);
                match rng.below(10) {
                    0..=5 => new_full(
                        seq,
                        id,
                        trader,
                        Side::from_u8(rng.below(2) as u8),
                        min_price + off,
                        qty(&mut rng),
                        [TimeInForce::Gtc, TimeInForce::Ioc, TimeInForce::Fok]
                            [rng.below(3) as usize],
                        SelfTradePrevention::from_u8(rng.below(4) as u8),
                    ),
                    6..=8 => cancel(seq, id, trader),
                    _ => modify(seq, id, trader, min_price + off, qty(&mut rng)),
                }
            })
            .collect();
        let mut oracle = ReferenceBook::new(cfg);
        for ev in &log {
            oracle.apply(*ev);
        }
        assert_eq!(compare(cfg, &log).ok(), Some(oracle.state_hash()));
    }
}

/// One event at a time through both engines.
#[test]
fn lockstep_stays_clean() {
    let mut both = Lockstep::new(fuzz_config());
    let mut rng = Pcg32::new(8);
    for i in 0..500usize {
        let ev = raw_op(&mut rng).to_event(i as u64);
        assert!(both.feed(ev, i).is_ok());
    }
    let mut fast = FastBook::new(fuzz_config());
    let mut rng = Pcg32::new(8);
    for i in 0..500u64 {
        fast.apply(raw_op(&mut rng).to_event(i));
    }
    assert_eq!(both.state_hash(), fast.book.state_hash());
}

#[test]
fn raw_operations_stand_for_events() {
    let op = RawOp::New {
        id: 200,
        trader: 7,
        bid: false,
        price_off: -3,
        qty: 9,
        tif: 5,
        stp: 6,
    };
    assert_eq!(
        op.to_event(11),
        new_full(
            11,
            200,
            3,
            Side::Ask,
            97,
            9,
            TimeInForce::Fok,
            SelfTradePrevention::CancelAggressor
        )
    );
    let op = RawOp::Cancel { id: 1, trader: 255 };
    assert_eq!(op.to_event(0), cancel(0, 1, 3));
    let op = RawOp::Modify {
        id: 1,
        trader: 4,
        price_off: i16::MAX,
        qty: 0,
    };
    assert_eq!(op.to_event(2), modify(2, 1, 0, 32_867, 0));
    assert_eq!(fuzz_config(), cfg());
}

/// Every kind of divergence is reported, the first one first.
#[test]
fn divergences_are_told_apart() {
    let a = [ack(1, 1)];
    let b = [ack(1, 2)];
    assert!(judge(3, &a, &a, Ok(()), 5, 5).is_ok());
    assert!(matches!(
        judge(3, &a, &b, Err("x"), 5, 6),
        Err(Divergence::Output(3))
    ));
    assert!(matches!(
        judge(3, &a, &[], Ok(()), 5, 5),
        Err(Divergence::Output(3))
    ));
    assert!(matches!(
        judge(3, &a, &a, Err("x"), 5, 6),
        Err(Divergence::Invariant(3, "x"))
    ));
    assert!(matches!(
        judge(3, &a, &a, Ok(()), 5, 6),
        Err(Divergence::StateHash(3))
    ));
}
