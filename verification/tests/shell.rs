//! The command line and the live view.

use tessera::book::OrderBook;
use tessera::buffer::EventBuffer;
use tessera::cli::{command, opt, opt_u64, parse_u64, positional, sim_config, Command};
use tessera::config::BookConfig;
use tessera::display::{
    bar_cells, bar_len, full_bar, last_trades, MAX_SAMPLES, LadderRow, LatencyWindow,
};
use tessera::events::InputEvent;
use tessera::runner::{Sim, SimConfig};
use tessera::types::{OrderId, Price, Qty, SelfTradePrevention, SeqNo, Side, TimeInForce, TraderId};

fn new_full(
    seq: u64,
    id: u64,
    trader: u32,
    side: Side,
    price: i64,
    qty: u64,
    tif: TimeInForce,
    stp: SelfTradePrevention,
) -> InputEvent {
    InputEvent::New {
        seq: SeqNo(seq),
        order_id: OrderId(id),
        trader: TraderId(trader),
        side,
        price: Price(price),
        qty: Qty(qty),
        tif,
        stp,
    }
}

/// Plain GTC limit order, no self-trade prevention.
fn new_lim(seq: u64, id: u64, trader: u32, side: Side, price: i64, qty: u64) -> InputEvent {
    new_tif(seq, id, trader, side, price, qty, TimeInForce::Gtc)
}

fn new_tif(
    seq: u64,
    id: u64,
    trader: u32,
    side: Side,
    price: i64,
    qty: u64,
    tif: TimeInForce,
) -> InputEvent {
    let stp = SelfTradePrevention::Disabled;
    new_full(seq, id, trader, side, price, qty, tif, stp)
}

fn args(words: &[&str]) -> Vec<String> {
    words.iter().map(|w| w.to_string()).collect()
}

#[test]
fn commands_are_named_by_the_first_word() {
    assert_eq!(command(&args(&["sim", "--seed", "1"])), Command::Sim);
    assert_eq!(command(&args(&["replay", "x.bin"])), Command::Replay);
    assert_eq!(command(&args(&["tui"])), Command::Tui);
    assert_eq!(command(&args(&["bench"])), Command::Bench);
    assert_eq!(command(&args(&["Sim"])), Command::Usage);
    assert_eq!(command(&args(&[])), Command::Usage);
}

#[test]
fn flags_take_the_next_word() {
    let a = args(&["--seed", "7", "--out", "x.bin", "--seed", "9", "--last"]);
    assert_eq!(opt(&a, "--seed"), Some("7".to_string()));
    assert_eq!(opt(&a, "--out"), Some("x.bin".to_string()));
    assert_eq!(opt(&a, "--last"), None);
    assert_eq!(opt(&a, "--see"), None);
    assert_eq!(opt_u64(&a, "--seed", 1), 7);
    assert_eq!(opt_u64(&a, "--out", 1), 1);
    assert_eq!(opt_u64(&a, "--none", 1), 1);
}

#[test]
fn numbers_parse_as_the_standard_library_does() {
    for s in [
        "0",
        "7",
        "+7",
        "007",
        "18446744073709551615",
        "18446744073709551616",
        "99999999999999999999999",
        "",
        "+",
        "-1",
        "1 ",
        "1_000",
        "0x10",
        "ä",
    ] {
        assert_eq!(parse_u64(s), s.parse::<u64>().ok(), "{s:?}");
    }
}

#[test]
fn the_positional_is_the_first_non_flag() {
    assert_eq!(positional(&args(&["--a", "b", "c"])), Some(1));
    assert_eq!(positional(&args(&["-a"])), Some(0));
    assert_eq!(positional(&args(&["--", "--x"])), None);
    assert_eq!(positional(&args(&[])), None);
}

#[test]
fn a_command_line_makes_a_simulation() {
    let c = sim_config(&args(&["--seed", "9", "--mm", "3", "--noise", "x"]));
    assert_eq!((c.seed, c.events), (9, 1_000_000));
    assert_eq!(
        (c.market_makers, c.momentum, c.noise, c.adversarial),
        (3, 5, 10, 2)
    );
    assert_eq!(c.book.num_levels, 4_096);
    // Numbers are cut to their field's width.
    let c = sim_config(&args(&["--momentum", "4294967299", "--events", "12"]));
    assert_eq!((c.momentum, c.events), (3, 12));
    let d = SimConfig::default();
    assert_eq!((d.seed, d.events, d.book.max_live_orders), (42, 1_000_000, 65_536));
}

#[test]
fn bars_are_in_proportion() {
    assert_eq!(bar_cells(100), 76);
    assert_eq!(bar_cells(24), 0);
    assert_eq!(bar_cells(3), 0);
    let rows = [(Price(3), 10u128, 1u32), (Price(2), 40, 2), (Price(1), 0, 1)];
    assert_eq!(full_bar(&rows), 40);
    assert_eq!(full_bar(&[]), 1);
    assert_eq!(full_bar(&[(Price(1), 0, 1)]), 1);
    assert_eq!(bar_len(10, 40, 76), 19);
    assert_eq!(bar_len(40, 40, 76), 76);
    assert_eq!(bar_len(13, 40, 76), 24);
}

#[test]
fn a_ladder_is_drawn_best_first() {
    let cfg = BookConfig::test();
    let mut book = OrderBook::new(cfg);
    let mut buf = EventBuffer::for_book(&cfg);
    for ev in [
        new_lim(1, 1, 1, Side::Bid, 1500, 30),
        new_lim(2, 2, 1, Side::Bid, 1490, 10),
        new_lim(3, 3, 2, Side::Bid, 1490, 50),
        new_lim(4, 4, 2, Side::Bid, 1480, 1),
        new_lim(5, 5, 3, Side::Ask, 1510, 8),
    ] {
        buf.clear();
        book.apply(ev, &mut buf);
    }
    assert_eq!(
        book.depth(Side::Bid, 12),
        vec![
            (Price(1500), 30, 1),
            (Price(1490), 60, 2),
            (Price(1480), 1, 1)
        ]
    );
    assert_eq!(book.depth(Side::Bid, 1), vec![(Price(1500), 30, 1)]);
    assert_eq!(book.depth(Side::Ask, 12), vec![(Price(1510), 8, 1)]);
    assert_eq!(
        book.ladder_rows(Side::Bid, 2, 44),
        vec![
            LadderRow {
                price: Price(1500),
                qty: 30,
                count: 1,
                bar: 10
            },
            LadderRow {
                price: Price(1490),
                qty: 60,
                count: 2,
                bar: 20
            },
        ]
    );
}

#[test]
fn last_trades_come_newest_first() {
    let t = [(1, 10), (2, 20), (3, 30)];
    assert_eq!(last_trades(&t, 2), vec![(3, 30), (2, 20)]);
    assert_eq!(last_trades(&t, 9), vec![(3, 30), (2, 20), (1, 10)]);
    assert_eq!(last_trades(&t, 0), vec![]);
}

#[test]
fn the_latency_window_rolls() {
    let mut w = LatencyWindow::new();
    w.record(100, 0);
    assert!(w.to_vec().is_empty());
    w.record(100, 3);
    assert_eq!(w.to_vec(), vec![33, 33, 33]);
    // One tick counts for no more than so many samples.
    w.record(6_400, 64);
    assert_eq!(w.to_vec().len(), 3 + 32);
    for _ in 0..MAX_SAMPLES / 32 {
        w.record(32, 32);
    }
    let v = w.to_vec();
    assert_eq!(v.len(), MAX_SAMPLES);
    assert_eq!(v[MAX_SAMPLES - 1], 1);
    assert_eq!(v[0], 100);
    w.record(32, 32);
    assert_eq!(w.to_vec()[0], 1);
}
