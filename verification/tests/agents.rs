//! The random stream, the id allocator, and the agents.

use tessera::adversarial::Adversarial;
use tessera::agent::{Agent, BookView, IdGen, Intent};
use tessera::config::BookConfig;
use tessera::events::InputEvent;
use tessera::market_maker::MarketMaker;
use tessera::momentum::Momentum;
use tessera::noise::Noise;
use tessera::rng::Pcg32;
use tessera::runner::SimConfig;
use tessera::types::{OrderId, Price, Qty, SeqNo, Side, TimeInForce, TraderId};

#[test]
fn deterministic_stream() {
    let a: Vec<u32> = {
        let mut r = Pcg32::new(42);
        (0..64).map(|_| r.next_u32()).collect()
    };
    let b: Vec<u32> = {
        let mut r = Pcg32::new(42);
        (0..64).map(|_| r.next_u32()).collect()
    };
    assert_eq!(a, b);
    let c: Vec<u32> = {
        let mut r = Pcg32::new(43);
        (0..64).map(|_| r.next_u32()).collect()
    };
    assert_ne!(a, c);
}

#[test]
fn stream_is_pinned() {
    let mut r = Pcg32::new(42);
    let got: Vec<u32> = (0..6).map(|_| r.next_u32()).collect();
    assert_eq!(
        got,
        vec![0x40b2_9785, 0x0a8b_3706, 0x2f09_1207, 0x646b_aef9, 0xfc12_6e1c, 0x6ae3_4297]
    );
    let mut r = Pcg32::new(u64::MAX);
    let got: Vec<u32> = (0..3).map(|_| r.next_u32()).collect();
    assert_eq!(got, vec![0x2675_c047, 0x7779_a837, 0xa145_aa13]);
}

#[test]
fn derived_draws_are_pinned() {
    let mut r = Pcg32::new(42);
    assert_eq!(r.next_u64(), 0x40b2_9785_0a8b_3706);
    assert_eq!(r.below(100), 81);
    assert_eq!(r.below(7), 2);
    let got: Vec<bool> = (0..4).map(|_| r.chance(30)).collect();
    assert_eq!(got, vec![false, true, true, false]);
    let mut r = Pcg32::new(7);
    let got: Vec<i64> = (0..6).map(|_| r.range_i64(-5, 5)).collect();
    assert_eq!(got, vec![2, 2, 1, -4, 1, -2]);
}

#[test]
fn twelve_are_the_next_twelve() {
    let mut a = Pcg32::new(3);
    let mut b = a.clone();
    let twelve = a.twelve();
    for x in twelve {
        assert_eq!(x, b.next_u32());
    }
    assert_eq!(a.next_u32(), b.next_u32());
}

#[test]
fn agent_ids_are_disjoint() {
    let mut a = IdGen::for_agent(0);
    let mut b = IdGen::for_agent(1);
    assert_eq!(a.next(), OrderId((1 << 40) | 1));
    assert_eq!(a.next(), OrderId((1 << 40) | 2));
    assert_eq!(b.next(), OrderId((2 << 40) | 1));
}

#[test]
fn mid_needs_both_sides() {
    let mut v = BookView {
        best_bid: Some(Price(1500)),
        best_ask: Some(Price(1503)),
        ref_price: Price(1500),
        last_trade: None,
        live_orders: 2,
    };
    assert_eq!(v.mid(), Some(Price(1501)));
    // Division rounds towards zero.
    v.best_bid = Some(Price(-4));
    v.best_ask = Some(Price(1));
    assert_eq!(v.mid(), Some(Price(-1)));
    v.best_ask = None;
    assert_eq!(v.mid(), None);
}

#[test]
fn intents_become_events() {
    let i = Intent::Cancel {
        order_id: OrderId(5),
    };
    assert_eq!(
        i.into_event(7, TraderId(3)),
        InputEvent::Cancel {
            seq: SeqNo(7),
            order_id: OrderId(5),
            trader: TraderId(3),
        }
    );
    let i = Intent::Modify {
        order_id: OrderId(5),
        new_price: Price(6),
        new_qty: Qty(8),
    };
    assert_eq!(
        i.into_event(7, TraderId(3)),
        InputEvent::Modify {
            seq: SeqNo(7),
            order_id: OrderId(5),
            trader: TraderId(3),
            new_price: Price(6),
            new_qty: Qty(8),
        }
    );
}

fn quiet_view() -> BookView {
    BookView {
        best_bid: Some(Price(1_990)),
        best_ask: Some(Price(2_010)),
        ref_price: Price(2_000),
        last_trade: None,
        live_orders: 2,
    }
}

fn sim_book() -> BookConfig {
    SimConfig::default().book
}

/// A maker quotes both sides around the middle, then stays put while nothing
/// moves.
#[test]
fn maker_quotes_once_and_waits() {
    let mut rng = Pcg32::new(1);
    let mut mm = MarketMaker::new(0, sim_book(), &mut rng);
    let mut out = Vec::new();
    mm.act(&quiet_view(), &mut rng, &mut out);
    assert_eq!(out.len(), 2);
    let prices: Vec<(Side, i64)> = out
        .iter()
        .map(|i| match *i {
            Intent::New { side, price, .. } => (side, price.0),
            _ => panic!("a fresh maker only places orders"),
        })
        .collect();
    assert_eq!(prices[0].0, Side::Bid);
    assert_eq!(prices[1].0, Side::Ask);
    assert!(prices[0].1 < 2_000 && 2_000 < prices[1].1);
    out.clear();
    mm.act(&quiet_view(), &mut rng, &mut out);
    assert!(out.is_empty());
    // A far move: both quotes are cancelled and placed anew.
    let moved = BookView {
        best_bid: Some(Price(2_490)),
        best_ask: Some(Price(2_510)),
        ref_price: Price(2_500),
        ..quiet_view()
    };
    mm.act(&moved, &mut rng, &mut out);
    assert_eq!(out.len(), 4);
    assert!(matches!(out[0], Intent::Cancel { .. }));
    assert!(matches!(out[1], Intent::Cancel { .. }));
    assert!(matches!(out[2], Intent::New { .. }));
    assert!(matches!(out[3], Intent::New { .. }));
}

/// Momentum needs two trades to see a direction, and then takes with it.
#[test]
fn momentum_chases_trades() {
    let mut rng = Pcg32::new(2);
    let mut m = Momentum::new(0, &mut rng);
    let mut out = Vec::new();
    for last in 2_000..2_500i64 {
        let v = BookView {
            last_trade: Some(Price(last)),
            ..quiet_view()
        };
        m.act(&v, &mut rng, &mut out);
    }
    assert!(!out.is_empty());
    for i in &out {
        match *i {
            Intent::New { side, price, tif, .. } => {
                assert_eq!(side, Side::Bid);
                assert_eq!(tif, TimeInForce::Ioc);
                assert!(2_010 <= price.0 && price.0 < 2_014);
            }
            _ => panic!("momentum only takes"),
        }
    }
}

/// Noise and adversarial agents keep acting, and cancel what they placed.
#[test]
fn noise_and_adversaries_act() {
    let mut rng = Pcg32::new(3);
    let mut n = Noise::new(0, sim_book(), &mut rng);
    let mut a = Adversarial::new(1, sim_book(), &mut rng);
    let (mut quiet, mut loud) = (Vec::new(), Vec::new());
    for _ in 0..500 {
        n.act(&quiet_view(), &mut rng, &mut quiet);
        a.act(&quiet_view(), &mut rng, &mut loud);
    }
    for out in [&quiet, &loud] {
        assert!(out.iter().any(|i| matches!(i, Intent::New { .. })));
        assert!(out.iter().any(|i| matches!(i, Intent::Cancel { .. })));
    }
    // An adversary never wants more than so much per tick.
    assert!(loud.len() <= 500 * 16);
}
