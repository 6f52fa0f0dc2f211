//! The journal: writing, reading, replaying.

use tessera::book::OrderBook;
use tessera::buffer::EventBuffer;
use tessera::codec::{encode_input, encode_output, INPUT_RECORD, OUTPUT_RECORD};
use tessera::config::BookConfig;
use tessera::driver::{SimResult, SimRun};
use tessera::events::{InputEvent, OutputEvent};
use tessera::hash::Fnv1a;
use tessera::journal::{
    decode_header, encode_header, feed_outputs, replay, HEADER, JournalReader, JournalWriter,
    ReplayResult,
};
use tessera::runner::SimConfig;
use tessera::types::{OrderId, Price, Qty, SelfTradePrevention, SeqNo, Side, TimeInForce, TraderId};

fn new_full(
    seq: u64,
    id: u64,
    trader: u32,
    side: Side,
    price: i64,
    qty: u64,
    tif: TimeInForce,
    stp: SelfTradePrevention,
) -> InputEvent {
    InputEvent::New {
        seq: SeqNo(seq),
        order_id: OrderId(id),
        trader: TraderId(trader),
        side,
        price: Price(price),
        qty: Qty(qty),
        tif,
        stp,
    }
}

/// Plain GTC limit order, no self-trade prevention.
fn new_lim(seq: u64, id: u64, trader: u32, side: Side, price: i64, qty: u64) -> InputEvent {
    new_tif(seq, id, trader, side, price, qty, TimeInForce::Gtc)
}

fn new_tif(
    seq: u64,
    id: u64,
    trader: u32,
    side: Side,
    price: i64,
    qty: u64,
    tif: TimeInForce,
) -> InputEvent {
    let stp = SelfTradePrevention::Disabled;
    new_full(seq, id, trader, side, price, qty, tif, stp)
}

fn cancel(seq: u64, id: u64, trader: u32) -> InputEvent {
    InputEvent::Cancel {
        seq: SeqNo(seq),
        order_id: OrderId(id),
        trader: TraderId(trader),
    }
}

/// Volatility of the reference price per tick.
const SIGMA: f64 = 0.0008;

/// Drive a simulation to completion: the reference price is a geometric
/// Brownian motion around the middle of the grid, on the random numbers that
/// the run hands out.
fn drive(sc: SimConfig) -> SimResult {
    assert!(sc.is_usable());
    let (low, high) = (sc.book.min_price, sc.book.max_price().0);
    let mut price = low as f64 + (high - low) as f64 / 2.0;
    let mut run = SimRun::new(sc, Price(price as i64));
    while let Some(draws) = run.next() {
        let uniforms = draws.iter().map(|&d| d as f64 / (u32::MAX as f64 + 1.0));
        price *= (SIGMA * (uniforms.sum::<f64>() - 6.0)).exp();
        price = price.clamp(low as f64 + 1.0, high as f64 - 1.0);
        assert!(run.tick(Price(price as i64)));
    }
    run.finish()
}

#[test]
fn write_replay_roundtrip_matches_live_run() {
    let sc = SimConfig {
        seed: 5,
        events: 50_000,
        ..Default::default()
    };
    let sim = drive(sc);

    let mut w = JournalWriter::create(&sc.book);
    for ev in &sim.log {
        w.append(ev);
    }
    let (bytes, n) = w.finish();
    assert_eq!(n as usize, sim.log.len());

    // Replaying the journal reproduces the live session's final state
    // hash exactly, and twice gives identical fingerprints.
    let a = replay(bytes.clone()).unwrap();
    let b = replay(bytes).unwrap();
    assert_eq!(a.events as usize, sim.log.len());
    assert_eq!(a.state_hash, sim.final_state_hash);
    assert_eq!(a.output_hash, b.output_hash);
    assert_eq!(a.state_hash, b.state_hash);
    assert!(a.same_fingerprint(&b));
    assert_eq!(
        a.outputs,
        sim.stats.acks + sim.stats.fills + sim.stats.cancelled_events + sim.stats.rejects
    );
}

fn small_journal() -> (Vec<u8>, Vec<InputEvent>) {
    let evs = vec![
        new_lim(1, 10, 3, Side::Bid, 1500, 25),
        new_lim(2, 11, 4, Side::Ask, 1501, 40),
        new_lim(3, 12, 5, Side::Ask, 1500, 5),
        cancel(4, 11, 4),
    ];
    let mut w = JournalWriter::create(&BookConfig::test());
    for ev in &evs {
        w.append(ev);
    }
    let (bytes, n) = w.finish();
    assert_eq!(n, 4);
    (bytes, evs)
}

#[test]
fn the_header_is_pinned() {
    let cfg = BookConfig {
        min_price: -2,
        tick_size: 5,
        num_levels: 0x0102_0304,
        max_live_orders: 7,
    };
    let mut h = [0xAAu8; HEADER];
    encode_header(&cfg, &mut h);
    assert_eq!(&h[0..8], b"TSRAJRN1");
    assert_eq!(&h[8..16], &(-2i64).to_le_bytes());
    assert_eq!(&h[16..24], &5i64.to_le_bytes());
    assert_eq!(&h[24..28], &[4, 3, 2, 1]);
    assert_eq!(&h[28..32], &[7, 0, 0, 0]);
    assert_eq!(decode_header(&h), Ok(cfg));
}

#[test]
fn a_journal_reads_back() {
    let (bytes, evs) = small_journal();
    assert_eq!(bytes.len(), HEADER + 4 * INPUT_RECORD);
    let mut r = JournalReader::open(bytes).ok().unwrap();
    assert_eq!(r.cfg, BookConfig::test());
    for ev in &evs {
        assert_eq!(r.next_event(), Ok(Some(*ev)));
    }
    assert_eq!(r.next_event(), Ok(None));
    assert_eq!(r.next_event(), Ok(None));
}

/// Event N lives at a computable offset.
#[test]
fn a_journal_is_seekable() {
    let (bytes, evs) = small_journal();
    for (n, ev) in evs.iter().enumerate() {
        let at = HEADER + n * INPUT_RECORD;
        let mut rec = [0u8; INPUT_RECORD];
        encode_input(ev, &mut rec);
        assert_eq!(&bytes[at..at + INPUT_RECORD], &rec);
    }
}

#[test]
fn a_replay_is_what_the_engine_does() {
    let (bytes, evs) = small_journal();
    let cfg = BookConfig::test();
    let mut book = OrderBook::new(cfg);
    let mut buf = EventBuffer::for_book(&cfg);
    let mut h = Fnv1a::new();
    let mut outputs = 0;
    for ev in evs {
        buf.clear();
        book.apply(ev, &mut buf);
        outputs += buf.len() as u64;
        feed_outputs(&mut h, buf.as_slice());
    }
    let r = replay(bytes).unwrap();
    assert_eq!(r.events, 4);
    assert_eq!(r.outputs, outputs);
    assert_eq!(r.outputs, 5);
    assert_eq!(r.output_hash, h.finish());
    assert_eq!(r.state_hash, book.state_hash());
    let other = ReplayResult {
        output_hash: r.output_hash ^ 1,
        ..replay(small_journal().0).unwrap()
    };
    assert!(!r.same_fingerprint(&other));
}

/// What the fingerprint hashes: the records, one behind the other.
#[test]
fn outputs_are_fed_as_records() {
    let out = OutputEvent::Ack {
        seq: SeqNo(1),
        order_id: OrderId(2),
    };
    let mut rec = [0u8; OUTPUT_RECORD];
    encode_output(&out, &mut rec);
    let mut a = Fnv1a::new();
    a.write_bytes(&rec);
    a.write_bytes(&rec);
    let mut b = Fnv1a::new();
    feed_outputs(&mut b, &[out, out]);
    assert_eq!(a.finish(), b.finish());
}

#[test]
fn each_journal_fault_has_its_error() {
    let (bytes, _) = small_journal();
    assert_eq!(
        replay(bytes[..31].to_vec()).err(),
        Some("truncated journal header")
    );
    assert_eq!(replay(Vec::new()).err(), Some("truncated journal header"));
    let mut b = bytes.clone();
    b[7] = b'2';
    assert_eq!(replay(b).err(), Some("not a tessera journal"));
    let mut b = bytes.clone();
    b[16..24].copy_from_slice(&0i64.to_le_bytes());
    assert_eq!(replay(b).err(), Some("corrupt journal header"));
    let mut b = bytes.clone();
    b[24..28].copy_from_slice(&0u32.to_le_bytes());
    assert_eq!(replay(b).err(), Some("corrupt journal header"));
    let mut b = bytes.clone();
    b[HEADER] = 9;
    assert_eq!(replay(b).err(), Some("bad input tag"));
    // A record cut short is an error, not the end.
    let cut = bytes[..bytes.len() - 1].to_vec();
    let mut r = JournalReader::open(cut.clone()).ok().unwrap();
    for _ in 0..3 {
        assert!(matches!(r.next_event(), Ok(Some(_))));
    }
    assert_eq!(r.next_event(), Err("truncated journal record"));
    assert_eq!(replay(cut).err(), Some("truncated journal record"));
    // The bare header is an empty session.
    let r = replay(bytes[..HEADER].to_vec()).unwrap();
    assert_eq!((r.events, r.outputs), (0, 0));
    assert_eq!(r.output_hash, Fnv1a::new().finish());
}
