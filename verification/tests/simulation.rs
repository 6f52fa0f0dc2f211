//! The agent simulation, driven as the command line drives it.

use tessera::book::OrderBook;
use tessera::buffer::EventBuffer;
use tessera::config::BookConfig;
use tessera::driver::{SimResult, SimRun};
use tessera::events::OutputEvent;
use tessera::runner::{Sim, SimConfig, Stats};
use tessera::types::Price;

/// Volatility of the reference price per tick.
const SIGMA: f64 = 0.0008;

/// Drive a simulation to completion: the reference price is a geometric
/// Brownian motion around the middle of the grid, on the random numbers that
/// the run hands out.
fn drive(sc: SimConfig) -> SimResult {
    assert!(sc.is_usable());
    let (low, high) = (sc.book.min_price, sc.book.max_price().0);
    let mut price = low as f64 + (high - low) as f64 / 2.0;
    let mut run = SimRun::new(sc, Price(price as i64));
    while let Some(draws) = run.next() {
        let uniforms = draws.iter().map(|&d| d as f64 / (u32::MAX as f64 + 1.0));
        price *= (SIGMA * (uniforms.sum::<f64>() - 6.0)).exp();
        price = price.clamp(low as f64 + 1.0, high as f64 - 1.0);
        assert!(run.tick(Price(price as i64)));
    }
    run.finish()
}

fn small() -> SimConfig {
    SimConfig {
        events: 200_000,
        ..SimConfig::default()
    }
}

/// Same seed -> byte-identical log (and end state).
#[test]
fn same_seed_identical_log() {
    let a = drive(small());
    let b = drive(small());
    assert_eq!(a.log, b.log);
    assert_eq!(a.final_state_hash, b.final_state_hash);
    let c = drive(SimConfig {
        seed: 43,
        ..small()
    });
    assert_ne!(a.log, c.log);
}

/// Realistic microstructure: cancel rate in the vicinity of real venues
/// (roughly 80–98% of news), plenty of resting depth, and a sane
/// order-to-trade ratio.
#[test]
fn realistic_microstructure() {
    let r = drive(small());
    let cancel_rate = r.stats.cancels as f64 / r.stats.news.max(1) as f64;
    assert!(
        (0.75..=1.05).contains(&cancel_rate),
        "cancel rate {cancel_rate:.2} outside the realistic band"
    );
    let order_to_trade = r.stats.news as f64 / r.stats.fills.max(1) as f64;
    assert!(
        order_to_trade >= 3.0,
        "order-to-trade {order_to_trade:.1} too low to be realistic"
    );
    let mean_depth = r.stats.depth_sum as f64 / r.stats.depth_samples.max(1) as f64;
    assert!(mean_depth >= 20.0, "book unrealistically thin");
    assert!(r.stats.fills > 0, "no trading at all");
}

/// The default market of a million events, pinned: its final state, and what
/// it looks like.
#[test]
fn the_default_market_is_pinned() {
    let r = drive(SimConfig::default());
    assert_eq!(r.final_state_hash, 0xa07b_d95c_2576_d233);
    let s = &r.stats;
    assert_eq!(format!("{:.1}", 100.0 * s.cancels as f64 / s.news as f64), "92.3");
    assert_eq!(format!("{:.1}", s.spread_sum as f64 / s.spread_samples as f64), "1.5");
    let mean_depth = s.depth_sum as f64 / s.depth_samples as f64;
    assert!((2_350.0..2_450.0).contains(&mean_depth));
}

/// Replaying the log through a fresh book leads to the same state, and the
/// log is numbered one by one.
#[test]
fn the_log_tells_the_book() {
    let sc = SimConfig {
        seed: 9,
        events: 20_000,
        ..SimConfig::default()
    };
    let r = drive(sc);
    assert!(r.log.len() >= sc.events);
    assert_eq!(r.stats.inputs as usize, r.log.len());
    assert_eq!(
        r.stats.news + r.stats.cancels + r.stats.modifies,
        r.stats.inputs
    );
    let mut book = OrderBook::new(sc.book);
    let mut buf = EventBuffer::for_book(&sc.book);
    let (mut acks, mut fills, mut gone, mut refused, mut traded) = (0, 0, 0, 0, 0u128);
    for (i, ev) in r.log.iter().enumerate() {
        assert_eq!(ev.seq().0, i as u64 + 1);
        buf.clear();
        book.apply(*ev, &mut buf);
        for out in buf.as_slice() {
            match *out {
                OutputEvent::Ack { .. } => acks += 1,
                OutputEvent::Fill { qty, .. } => {
                    fills += 1;
                    traded += qty.0 as u128;
                }
                OutputEvent::Cancelled { .. } => gone += 1,
                OutputEvent::Rejected { .. } => refused += 1,
            }
        }
    }
    assert_eq!(book.state_hash(), r.final_state_hash);
    assert_eq!(
        (acks, fills, gone, refused, traded),
        (
            r.stats.acks,
            r.stats.fills,
            r.stats.cancelled_events,
            r.stats.rejects,
            r.stats.traded_qty
        )
    );
}

/// What every tick does, and that a twin does the same.
#[test]
fn every_tick_counts_what_it_logs() {
    let sc = SimConfig::default();
    let mid = Price(3_000);
    let (mut one, mut two) = (Sim::new(sc, mid), Sim::new(sc, mid));
    let (mut log, mut twin) = (Vec::new(), Vec::new());
    for tick in 0..50u64 {
        let price = Price(2_900 + 5 * (tick as i64 % 40));
        let (inputs, from) = (one.stats.inputs, log.len());
        assert_eq!(one.draw(), two.draw());
        let applied = one.tick(price, &mut log);
        assert_eq!(two.tick(price, &mut twin), applied);
        assert_eq!((log.len() - from) as u64, applied);
        assert_eq!(one.stats.inputs, inputs + applied);
        assert_eq!(
            one.stats.news + one.stats.cancels + one.stats.modifies,
            one.stats.inputs
        );
        for (k, ev) in log[from..].iter().enumerate() {
            assert_eq!(ev.seq().0, inputs + k as u64 + 1);
        }
        assert_eq!(one.stats.depth_samples, tick + 1);
        assert!(one.recent_trades.len() <= 64);
        assert_eq!(log, twin);
        assert_eq!(one.state_hash(), two.state_hash());
    }
}

/// One tick at a time, with the same outcome.
#[test]
fn ticking_by_hand_is_a_run() {
    let sc = SimConfig {
        events: 500,
        ..SimConfig::default()
    };
    let mid = Price(3_000);
    let mut run = SimRun::new(sc, mid);
    let mut sim = Sim::new(sc, mid);
    let mut log = Vec::new();
    let mut applied = 0;
    while let Some(draws) = run.next() {
        assert_eq!(sim.draw(), draws);
        assert!(sim.can_tick(mid));
        assert!(run.tick(mid));
        applied += sim.tick(mid, &mut log);
        assert_eq!(sim.view().ref_price, mid);
        assert_eq!(sim.view().best_bid, sim.book.best_bid());
        assert_eq!(sim.view().live_orders, sim.book.live_count());
        assert!(sim.recent_trades.len() <= 64);
    }
    let hash = sim.state_hash();
    assert_eq!(sim.book.validate(), Ok(()));
    let r = run.finish();
    assert_eq!(r.log, log);
    assert_eq!(applied as usize, log.len());
    assert_eq!(r.final_state_hash, hash);
    assert_eq!(sim.stats.inputs, r.stats.inputs);
    assert_eq!(sim.stats.depth_samples, r.stats.depth_samples);
}

#[test]
fn a_tick_off_the_grid_is_refused() {
    let sc = SimConfig::default();
    let mut run = SimRun::new(sc, Price(3_000));
    assert!(!run.tick(Price(999)));
    assert!(!run.tick(Price(5_096)));
    assert!(run.tick(Price(5_095)));
    assert!(run.tick(Price(1_000)));
}

#[test]
fn no_events_wanted_is_done_at_once() {
    let sc = SimConfig {
        events: 0,
        ..SimConfig::default()
    };
    let mut run = SimRun::new(sc, Price(3_000));
    assert!(run.next().is_none());
    let r = run.finish();
    assert!(r.log.is_empty());
    assert_eq!(r.final_state_hash, OrderBook::new(sc.book).state_hash());
}

#[test]
fn unusable_simulations_are_told_apart() {
    assert!(SimConfig::default().is_usable());
    let crowd = SimConfig {
        market_makers: u32::MAX,
        ..SimConfig::default()
    };
    assert!(!crowd.is_usable());
    let wide = SimConfig {
        book: BookConfig {
            min_price: i64::MAX - 100,
            ..SimConfig::default().book
        },
        ..SimConfig::default()
    };
    assert!(!wide.is_usable());
    let flat = SimConfig {
        book: BookConfig {
            num_levels: 0,
            ..SimConfig::default().book
        },
        ..SimConfig::default()
    };
    assert!(!flat.is_usable());
}

#[test]
fn nothing_is_counted_at_first() {
    let s = Stats::default();
    assert_eq!((s.inputs, s.fills, s.traded_qty), (0, 0, 0));
    assert_eq!((s.depth_samples, s.spread_samples), (0, 0));
}
