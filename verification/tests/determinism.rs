//! Determinism, hashing, snapshot and restore.
//!
//! The engine is a pure state machine, so the same log must produce the same
//! outputs and the same state hash: across runs, machines, and builds.

use std::hash::Hash;
use tessera::book::OrderBook;
use tessera::buffer::EventBuffer;
use tessera::config::BookConfig;
use tessera::events::InputEvent;
use tessera::hash::Fnv1a;
use tessera::reference::ReferenceBook;
use tessera::rng::Pcg32;
use tessera::types::{OrderId, Price, Qty, SelfTradePrevention, SeqNo, Side, TimeInForce, TraderId};

fn new_full(
    seq: u64,
    id: u64,
    trader: u32,
    side: Side,
    price: i64,
    qty: u64,
    tif: TimeInForce,
    stp: SelfTradePrevention,
) -> InputEvent {
    InputEvent::New {
        seq: SeqNo(seq),
        order_id: OrderId(id),
        trader: TraderId(trader),
        side,
        price: Price(price),
        qty: Qty(qty),
        tif,
        stp,
    }
}

/// Plain GTC limit order, no self-trade prevention.
fn new_lim(seq: u64, id: u64, trader: u32, side: Side, price: i64, qty: u64) -> InputEvent {
    new_tif(seq, id, trader, side, price, qty, TimeInForce::Gtc)
}

fn new_tif(
    seq: u64,
    id: u64,
    trader: u32,
    side: Side,
    price: i64,
    qty: u64,
    tif: TimeInForce,
) -> InputEvent {
    let stp = SelfTradePrevention::Disabled;
    new_full(seq, id, trader, side, price, qty, tif, stp)
}

fn cancel(seq: u64, id: u64, trader: u32) -> InputEvent {
    InputEvent::Cancel {
        seq: SeqNo(seq),
        order_id: OrderId(id),
        trader: TraderId(trader),
    }
}

/// The book that generated streams run on.
fn gen_cfg() -> BookConfig {
    BookConfig {
        min_price: 1_000,
        tick_size: 1,
        num_levels: 256,
        max_live_orders: 512,
    }
}

/// A seeded stream of structured instructions: small id and trader pools, so
/// that ids collide and get reused and traders meet themselves; prices that
/// straddle the grid edges; quantities that include zero.
struct StreamGen {
    rng: Pcg32,
    cfg: BookConfig,
    seq: u64,
}

impl StreamGen {
    fn new(seed: u64, cfg: BookConfig) -> Self {
        StreamGen {
            rng: Pcg32::new(seed),
            cfg,
            seq: 0,
        }
    }

    fn price(&mut self) -> Price {
        let span = self.cfg.num_levels as i64 * self.cfg.tick_size;
        Price(self.cfg.min_price + self.rng.range_i64(-2, span + 2))
    }

    fn qty(&mut self) -> Qty {
        Qty(match self.rng.below(16) {
            0 => 0,
            1 => u64::MAX / 2,
            2 | 3 => 1 + self.rng.below(5_000),
            _ => 1 + self.rng.below(50),
        })
    }

    fn next_event(&mut self) -> InputEvent {
        self.seq += 1;
        let seq = SeqNo(self.seq);
        let order_id = OrderId(self.rng.below(400));
        let trader = TraderId(self.rng.below(4) as u32);
        match self.rng.below(10) {
            0..=4 => InputEvent::New {
                seq,
                order_id,
                trader,
                side: Side::from_u8(self.rng.below(2) as u8),
                price: self.price(),
                qty: self.qty(),
                tif: match self.rng.below(6) {
                    0 => TimeInForce::Ioc,
                    1 => TimeInForce::Fok,
                    _ => TimeInForce::Gtc,
                },
                stp: SelfTradePrevention::from_u8(self.rng.below(4) as u8),
            },
            5..=8 => InputEvent::Cancel {
                seq,
                order_id,
                trader,
            },
            _ => InputEvent::Modify {
                seq,
                order_id,
                trader,
                new_price: self.price(),
                new_qty: self.qty(),
            },
        }
    }
}

fn gen_log(seed: u64, n: usize) -> Vec<InputEvent> {
    let mut g = StreamGen::new(seed, gen_cfg());
    (0..n).map(|_| g.next_event()).collect()
}

/// Run a log through a fresh engine; fingerprint the entire output stream and
/// return it with the final state hash.
fn run(log: &[InputEvent]) -> (u64, u64) {
    let mut book = OrderBook::new(gen_cfg());
    let mut buf = EventBuffer::for_book(&gen_cfg());
    let mut out_hash = Fnv1a::new();
    for &ev in log {
        buf.clear();
        book.apply(ev, &mut buf);
        for e in buf.as_slice() {
            e.hash(&mut out_hash);
        }
    }
    (out_hash.finish(), book.state_hash())
}

/// Same log, many runs -> byte-identical outputs and state hash.
#[test]
fn replay_is_deterministic() {
    let log = gen_log(42, 100_000);
    let baseline = run(&log);
    for i in 0..10 {
        assert_eq!(run(&log), baseline, "divergence on run {i}");
    }
}

/// The engine and the reference agree on the semantic state hash after every
/// event: the two implementations share only the canonical definition, so
/// agreement is meaningful.
#[test]
fn state_hash_agrees_with_reference() {
    let log = gen_log(7, 20_000);
    let mut fast = OrderBook::new(gen_cfg());
    let mut buf = EventBuffer::for_book(&gen_cfg());
    let mut oracle = ReferenceBook::new(gen_cfg());
    for (i, &ev) in log.iter().enumerate() {
        buf.clear();
        fast.apply(ev, &mut buf);
        oracle.apply(ev);
        assert_eq!(
            fast.state_hash(),
            oracle.state_hash(),
            "state hash divergence at event {i}: {ev:?}"
        );
    }
}

/// Pin the hash of a small known book to a constant. If this ever fails,
/// either the canonical encoding changed (bump knowingly!) or the hash is
/// platform-dependent (a determinism bug).
#[test]
fn state_hash_pinned_value() {
    let cfg = BookConfig::test();
    let mut book = OrderBook::new(cfg);
    let mut oracle = ReferenceBook::new(cfg);
    let mut buf = EventBuffer::for_book(&cfg);
    for ev in [
        new_lim(1, 10, 3, Side::Bid, 1500, 25),
        new_lim(2, 11, 4, Side::Ask, 1501, 40),
    ] {
        buf.clear();
        book.apply(ev, &mut buf);
        oracle.apply(ev);
    }
    assert_eq!(book.state_hash(), 0xf043_c58d_904a_a2f0);
    assert_eq!(oracle.state_hash(), 0xf043_c58d_904a_a2f0);
}

#[test]
fn an_empty_book_hashes_its_two_side_marks() {
    assert_eq!(OrderBook::new(gen_cfg()).state_hash(), 0x0832_8707_b4eb_6e3a);
    assert_eq!(ReferenceBook::new(gen_cfg()).state_hash(), 0x0832_8707_b4eb_6e3a);
}

/// snapshot(N) + replay_from(N) == full_replay — for outputs AND hash.
#[test]
fn snapshot_fast_forward_equals_full_replay() {
    let log = gen_log(1234, 50_000);
    let split = 25_000;

    // Full replay.
    let mut full = OrderBook::new(gen_cfg());
    let mut buf = EventBuffer::for_book(&gen_cfg());
    for &ev in &log[..split] {
        buf.clear();
        full.apply(ev, &mut buf);
    }
    let snap = full.snapshot();
    assert_eq!(snap.orders.len(), full.live_count() as usize);

    // Restored book must be semantically identical right away...
    let mut restored = OrderBook::restore(&snap).expect("restore failed");
    assert_eq!(restored.state_hash(), full.state_hash());
    restored.validate().expect("restored book invalid");

    // ...and must produce identical outputs for the rest of the log.
    let mut h_full = Fnv1a::new();
    let mut h_rest = Fnv1a::new();
    let mut buf2 = EventBuffer::for_book(&gen_cfg());
    for &ev in &log[split..] {
        buf.clear();
        buf2.clear();
        full.apply(ev, &mut buf);
        restored.apply(ev, &mut buf2);
        for e in buf.as_slice() {
            e.hash(&mut h_full);
        }
        for e in buf2.as_slice() {
            e.hash(&mut h_rest);
        }
    }
    assert_eq!(h_full.finish(), h_rest.finish());
    assert_eq!(full.state_hash(), restored.state_hash());
}

/// The generator itself must be deterministic, or every test above is
/// meaningless flake-bait.
#[test]
fn generator_is_deterministic() {
    assert_eq!(gen_log(99, 10_000), gen_log(99, 10_000));
}

#[test]
fn fnv_known_values() {
    let mut h = Fnv1a::new();
    assert_eq!(h.finish(), 0xcbf2_9ce4_8422_2325);
    h.write_bytes(b"foobar");
    assert_eq!(h.finish(), 0x8594_4171_f739_67e8);
    let mut h = Fnv1a::default();
    h.write_u8(b'a');
    assert_eq!(h.finish(), 0xaf63_dc4c_8601_ec8c);

    let mut h = Fnv1a::new();
    h.write_u32(0xdead_beef);
    h.write_u64(1);
    h.write_u128(2 + (3 << 64));
    h.write_i64(-4);
    h.write_u8(5);
    assert_eq!(h.finish(), 0x1b96_2fb6_b47f_5e3f);
}

/// Derived hashes go through the same stream.
#[test]
fn fnv_is_a_hasher() {
    let mut h = Fnv1a::new();
    std::hash::Hasher::write(&mut h, b"foobar");
    assert_eq!(std::hash::Hasher::finish(&h), 0x8594_4171_f739_67e8);
    assert_eq!(h.finish(), 0x8594_4171_f739_67e8);
}

/// Hashing in parts is hashing the whole.
#[test]
fn fnv_concatenates() {
    let mut whole = Fnv1a::new();
    whole.write_bytes(b"limit order book");
    let mut parts = Fnv1a::new();
    parts.write_bytes(b"limit ");
    parts.write_bytes(b"");
    parts.write_bytes(b"order book");
    assert_eq!(whole.finish(), parts.finish());
}

/// Two books of the same meaning hash alike, wherever their orders live.
#[test]
fn the_hash_does_not_see_the_slots() {
    let cfg = BookConfig::test();
    let mut buf = EventBuffer::for_book(&cfg);
    let mut a = OrderBook::new(cfg);
    a.apply(new_lim(1, 1, 1, Side::Bid, 1500, 5), &mut buf);
    let mut b = OrderBook::new(cfg);
    b.apply(new_lim(1, 9, 1, Side::Bid, 1400, 5), &mut buf);
    b.apply(new_lim(1, 1, 1, Side::Bid, 1500, 5), &mut buf);
    b.apply(cancel(2, 9, 1), &mut buf);
    assert_eq!(a.state_hash(), b.state_hash());
}
