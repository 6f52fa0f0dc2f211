//! The ring between the I/O side and the engine.

use tessera::book::OrderBook;
use tessera::buffer::EventBuffer;
use tessera::config::BookConfig;
use tessera::driver::{SimResult, SimRun};
use tessera::events::InputEvent;
use tessera::ring::{first_look, last_look, ring, Look, Received};
use tessera::rng::Pcg32;
use tessera::runner::SimConfig;
use tessera::types::{OrderId, Price, Qty, SelfTradePrevention, SeqNo, Side, TimeInForce, TraderId};

/// Volatility of the reference price per tick.
const SIGMA: f64 = 0.0008;

/// Drive a simulation to completion: the reference price is a geometric
/// Brownian motion around the middle of the grid, on the random numbers that
/// the run hands out.
fn drive(sc: SimConfig) -> SimResult {
    assert!(sc.is_usable());
    let (low, high) = (sc.book.min_price, sc.book.max_price().0);
    let mut price = low as f64 + (high - low) as f64 / 2.0;
    let mut run = SimRun::new(sc, Price(price as i64));
    while let Some(draws) = run.next() {
        let uniforms = draws.iter().map(|&d| d as f64 / (u32::MAX as f64 + 1.0));
        price *= (SIGMA * (uniforms.sum::<f64>() - 6.0)).exp();
        price = price.clamp(low as f64 + 1.0, high as f64 - 1.0);
        assert!(run.tick(Price(price as i64)));
    }
    run.finish()
}

fn new_full(
    seq: u64,
    id: u64,
    trader: u32,
    side: Side,
    price: i64,
    qty: u64,
    tif: TimeInForce,
    stp: SelfTradePrevention,
) -> InputEvent {
    InputEvent::New {
        seq: SeqNo(seq),
        order_id: OrderId(id),
        trader: TraderId(trader),
        side,
        price: Price(price),
        qty: Qty(qty),
        tif,
        stp,
    }
}

/// Plain GTC limit order, no self-trade prevention.
fn new_lim(seq: u64, id: u64, trader: u32, side: Side, price: i64, qty: u64) -> InputEvent {
    new_tif(seq, id, trader, side, price, qty, TimeInForce::Gtc)
}

fn new_tif(
    seq: u64,
    id: u64,
    trader: u32,
    side: Side,
    price: i64,
    qty: u64,
    tif: TimeInForce,
) -> InputEvent {
    let stp = SelfTradePrevention::Disabled;
    new_full(seq, id, trader, side, price, qty, tif, stp)
}

/// Pipe a log through a ring of the given capacity and into a book; what the
/// book is in the end.
fn pipe(cfg: BookConfig, log: &[InputEvent], capacity: usize) -> OrderBook {
    let (tx, rx) = ring::<InputEvent>(capacity);
    let mut book = OrderBook::new(cfg);
    let mut buf = EventBuffer::for_book(&cfg);
    let mut todo = log.iter();
    let mut next = todo.next();
    loop {
        // Fill the ring until it refuses, then hang up at the end.
        while let Some(ev) = next {
            match tx.try_send(*ev) {
                Ok(()) => next = todo.next(),
                Err(back) => {
                    assert_eq!(back, *ev);
                    break;
                }
            }
        }
        if next.is_none() {
            tx.close();
        }
        match rx.poll() {
            Received::Item(ev) => {
                buf.clear();
                book.apply(ev, &mut buf);
            }
            Received::HungUp => break,
            Received::Pending => {}
        }
    }
    book
}

/// Pipe a log through the ring and into the engine: same final state as
/// applying it directly.
#[test]
fn pipeline_matches_inline() {
    let cfg = BookConfig::test();
    let mut rng = Pcg32::new(11);
    let log: Vec<InputEvent> = (0..10_000u64)
        .map(|i| {
            let side = Side::from_u8(rng.below(2) as u8);
            new_lim(i + 1, i, rng.below(9) as u32, side, rng.range_i64(1_400, 1_600), 1 + rng.below(9))
        })
        .collect();
    let mut direct = OrderBook::new(cfg);
    let mut buf = EventBuffer::for_book(&cfg);
    for ev in &log {
        buf.clear();
        direct.apply(*ev, &mut buf);
    }
    assert_eq!(pipe(cfg, &log, 64).state_hash(), direct.state_hash());
}

/// Pipe the log of a simulation through the ring and into the engine: same
/// final state hash as the simulation's own book.
#[test]
fn simulated_pipeline_matches_inline() {
    let sc = SimConfig {
        seed: 11,
        events: 100_000,
        ..SimConfig::default()
    };
    let sim = drive(sc);
    assert!(sim.log.len() >= 100_000);
    let book = pipe(sc.book, &sim.log, 1024);
    assert_eq!(book.state_hash(), sim.final_state_hash);
}

#[test]
fn a_ring_is_bounded_and_first_in_first_out() {
    let (tx, rx) = ring::<u64>(2);
    assert_eq!(rx.try_recv(), None);
    assert!(matches!(rx.poll(), Received::Pending));
    assert_eq!(tx.try_send(1), Ok(()));
    assert_eq!(tx.try_send(2), Ok(()));
    assert_eq!(tx.try_send(3), Err(3));
    assert_eq!(rx.try_recv(), Some(1));
    assert_eq!(tx.try_send(3), Ok(()));
    tx.close();
    // What was sent before hanging up still arrives.
    assert!(matches!(rx.poll(), Received::Item(2)));
    assert!(matches!(rx.poll(), Received::Item(3)));
    assert!(matches!(rx.poll(), Received::HungUp));
    assert_eq!(rx.try_recv(), None);
}

#[test]
fn looks_decide() {
    assert!(matches!(
        first_look(Some(7), false),
        Look::Done(Received::Item(7))
    ));
    assert!(matches!(
        first_look(Some(7), true),
        Look::Done(Received::Item(7))
    ));
    assert!(matches!(
        first_look::<u8>(None, false),
        Look::Done(Received::Pending)
    ));
    assert!(matches!(first_look::<u8>(None, true), Look::Again));
    assert!(matches!(last_look(Some(7)), Received::Item(7)));
    assert!(matches!(last_look::<u8>(None), Received::HungUp));
}
