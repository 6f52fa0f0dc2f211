//! The oracle: a deliberately slow, obviously correct matching engine.
//!
//! A sorted `Vec` per side, linear scans, allocation everywhere. Its only job
//! is to be correct *by inspection*: every function should be readable top to
//! bottom with no cleverness to audit. It must produce byte-identical
//! `OutputEvent` streams to the fast engine, in the same order.

use crate::config::BookConfig;
use crate::events::{CancelReason, InputEvent, OutputEvent, RejectReason};
use crate::hash::{
    book_hash, feed_level, feed_order, ladder_bytes, law_fnv_concat, level_bytes, order_bytes,
    queue_bytes, side_bytes, Fnv1a, FNV_OFFSET, fnv,
};
use crate::bytes::le;
use crate::model::{crosses_at, queue_qty, BookModel, Ladder, Taker};
use crate::snapshot::SnapOrder;
use crate::types::{OrderId, Price, Qty, SelfTradePrevention, SeqNo, Side, TimeInForce, TraderId};
use vstd::prelude::*;

verus! {

/// One resting order of the oracle.
#[derive(Copy, Clone, Debug)]
pub struct RefOrder {
    pub id: OrderId,
    pub trader: TraderId,
    pub side: Side,
    pub price: Price,
    pub remaining: u64,
    pub original: u64,
    /// Seq of the input event that placed this order on the book (the
    /// original New, or the Modify that re-priced it). Used only as the
    /// time-priority tiebreak within a price level.
    pub seq: u64,
    pub stp: SelfTradePrevention,
}

impl RefOrder {
    /// The order as the book means it: without its sequence number.
    pub open spec fn meaning(self) -> SnapOrder {
        SnapOrder {
            order_id: self.id.0,
            trader: self.trader.0,
            side: self.side,
            price: self.price.0,
            remaining: self.remaining,
            original_qty: self.original,
            stp: self.stp,
        }
    }

    /// The order has strictly better price-time priority than `other` on side
    /// `s`: a better price, or the same price and an earlier sequence number.
    pub open spec fn precedes(self, other: RefOrder, s: Side) -> bool {
        ||| match s {
            Side::Bid => self.price.0 > other.price.0,
            Side::Ask => self.price.0 < other.price.0,
        }
        ||| self.price.0 == other.price.0 && self.seq < other.seq
    }
}

/// What the oracle holds.
#[verifier::ext_equal]
pub struct RefModel {
    pub cfg: BookConfig,
    /// Highest priority first.
    pub bids: Seq<RefOrder>,
    /// Highest priority first.
    pub asks: Seq<RefOrder>,
}

/// No order stands before one with better priority.
pub open spec fn by_priority(q: Seq<RefOrder>, s: Side) -> bool {
    forall|i: int, j: int| 0 <= i < j < q.len() ==> !(#[trigger] q[j]).precedes(#[trigger] q[i], s)
}

/// How many orders stand before the first that `o` has priority over.
pub open spec fn rank(q: Seq<RefOrder>, o: RefOrder, s: Side) -> int
    decreases q.len(),
{
    if q.len() == 0 || o.precedes(q[0], s) {
        0
    } else {
        1 + rank(q.skip(1), o, s)
    }
}

/// The first order with this id.
pub open spec fn first_with(q: Seq<RefOrder>, id: OrderId) -> Option<RefOrder>
    decreases q.len(),
{
    if q.len() == 0 {
        None
    } else if q[0].id == id {
        Some(q[0])
    } else {
        first_with(q.skip(1), id)
    }
}

/// Every order but those with this id.
pub open spec fn not_id(id: OrderId) -> spec_fn(RefOrder) -> bool {
    |o: RefOrder| o.id != id
}

/// The orders on one price level.
pub open spec fn on_shelf(cfg: BookConfig, i: int) -> spec_fn(RefOrder) -> bool {
    |o: RefOrder| cfg.level_of(o.price) == Some(i as u32)
}

/// The meanings of a list of orders.
pub open spec fn meanings(q: Seq<RefOrder>) -> Seq<SnapOrder> {
    Seq::new(q.len(), |k: int| q[k].meaning())
}

impl RefModel {
    /// An empty oracle.
    pub open spec fn empty(cfg: BookConfig) -> RefModel {
        RefModel { cfg, bids: Seq::empty(), asks: Seq::empty() }
    }

    /// One side.
    pub open spec fn side(self, s: Side) -> Seq<RefOrder> {
        match s {
            Side::Bid => self.bids,
            Side::Ask => self.asks,
        }
    }

    /// The oracle with another side.
    pub open spec fn with_side(self, s: Side, q: Seq<RefOrder>) -> RefModel {
        match s {
            Side::Bid => RefModel { bids: q, ..self },
            Side::Ask => RefModel { asks: q, ..self },
        }
    }

    /// How many orders rest.
    pub open spec fn live(self) -> nat {
        self.bids.len() + self.asks.len()
    }

    /// The resting order with this id.
    pub open spec fn find(self, id: OrderId) -> Option<RefOrder> {
        first_with(self.bids + self.asks, id)
    }

    /// The oracle without the order `id`.
    pub open spec fn removed(self, id: OrderId) -> RefModel {
        RefModel {
            bids: self.bids.filter(not_id(id)),
            asks: self.asks.filter(not_id(id)),
            ..self
        }
    }

    /// The oracle with `o` in its place by price-time priority.
    pub open spec fn rested(self, o: RefOrder) -> RefModel {
        let q = self.side(o.side);
        self.with_side(o.side, q.insert(rank(q, o, o.side), o))
    }

    /// The same orders on the shelves of a book.
    pub open spec fn shelved(self) -> BookModel {
        BookModel {
            cfg: self.cfg,
            bids: Seq::new(
                self.cfg.num_levels as nat,
                |i: int| meanings(self.bids.filter(on_shelf(self.cfg, i))),
            ),
            asks: Seq::new(
                self.cfg.num_levels as nat,
                |i: int| meanings(self.asks.filter(on_shelf(self.cfg, i))),
            ),
        }
    }

    /// Both sides are sorted by priority and hold no more than the capacity.
    pub open spec fn wf(self) -> bool {
        &&& self.cfg.tick_size >= 1
        &&& self.live() <= self.cfg.max_live_orders
        &&& by_priority(self.bids, Side::Bid)
        &&& by_priority(self.asks, Side::Ask)
    }
}

/// What is left when an incoming order has met the other side.
pub struct RefSweep {
    pub rest: Seq<RefOrder>,
    pub remaining: u64,
    pub killed: bool,
    pub events: Seq<OutputEvent>,
}

impl RefSweep {
    /// The same outcome, with `first` before its events.
    pub open spec fn after(self, first: Seq<OutputEvent>) -> RefSweep {
        RefSweep { events: first + self.events, ..self }
    }
}

/// Match an incoming order against the other side, front order first.
pub open spec fn ref_sweep(t: Taker, q: Seq<RefOrder>, remaining: u64) -> RefSweep
    decreases q.len(),
{
    if remaining == 0 || q.len() == 0 || !t.reaches(q[0].meaning()) {
        RefSweep { rest: q, remaining, killed: false, events: Seq::empty() }
    } else {
        let maker = q[0];
        let resting = t.kill(maker.id.0, maker.remaining, CancelReason::SelfTradePrevention);
        let incoming = t.kill(t.id.0, remaining, CancelReason::SelfTradePrevention);
        if t.own(maker.meaning()) {
            if t.stp == SelfTradePrevention::CancelResting {
                ref_sweep(t, q.skip(1), remaining).after(seq![resting])
            } else if t.stp == SelfTradePrevention::CancelAggressor {
                RefSweep { rest: q, remaining, killed: true, events: seq![incoming] }
            } else {
                RefSweep {
                    rest: q.skip(1),
                    remaining,
                    killed: true,
                    events: seq![resting, incoming],
                }
            }
        } else if maker.remaining <= remaining {
            ref_sweep(t, q.skip(1), (remaining - maker.remaining) as u64).after(
                seq![t.fill(maker.meaning(), maker.remaining)],
            )
        } else {
            RefSweep {
                rest: q.update(
                    0,
                    RefOrder { remaining: (maker.remaining - remaining) as u64, ..maker },
                ),
                remaining: 0,
                killed: false,
                events: seq![t.fill(maker.meaning(), remaining)],
            }
        }
    }
}

/// How many lots an incoming order could trade at once.
pub open spec fn ref_available(t: Taker, q: Seq<RefOrder>) -> nat
    decreases q.len(),
{
    if q.len() == 0 || !t.reaches(q[0].meaning()) {
        0
    } else if t.own(q[0].meaning()) {
        if t.stp == SelfTradePrevention::CancelResting {
            ref_available(t, q.skip(1))
        } else {
            0
        }
    } else {
        q[0].remaining as nat + ref_available(t, q.skip(1))
    }
}

/// What the oracle holds after an instruction, and what it answers.
pub struct RefStep {
    pub book: RefModel,
    pub events: Seq<OutputEvent>,
}

/// A refusal.
pub open spec fn ref_refused(
    m: RefModel,
    seq: SeqNo,
    order_id: OrderId,
    reason: RejectReason,
) -> RefStep {
    RefStep { book: m, events: seq![OutputEvent::Rejected { seq, order_id, reason }] }
}

/// An accepted order: cross, then rest or kill what is left.
pub open spec fn ref_enter(m: RefModel, t: Taker, qty: u64, tif: TimeInForce) -> RefStep {
    let opp = t.side.opposite();
    let w = ref_sweep(t, m.side(opp), qty);
    let crossed = m.with_side(opp, w.rest);
    if w.killed || w.remaining == 0 {
        RefStep { book: crossed, events: w.events }
    } else if tif == TimeInForce::Gtc {
        RefStep {
            book: crossed.rested(
                RefOrder {
                    id: t.id,
                    trader: t.trader,
                    side: t.side,
                    price: t.price,
                    remaining: w.remaining,
                    original: qty,
                    seq: t.seq.0,
                    stp: t.stp,
                },
            ),
            events: w.events,
        }
    } else {
        RefStep {
            book: crossed,
            events: w.events.push(t.kill(t.id.0, w.remaining, CancelReason::Ioc)),
        }
    }
}

/// What an instruction does to the oracle, and what it answers.
pub open spec fn ref_step(m: RefModel, ev: InputEvent) -> RefStep {
    match ev {
        InputEvent::New { seq, order_id, trader, side, price, qty, tif, stp } => {
            let t = Taker { seq, id: order_id, trader, side, price, stp };
            if qty.0 == 0 {
                ref_refused(m, seq, order_id, RejectReason::ZeroQty)
            } else if m.find(order_id) is Some {
                ref_refused(m, seq, order_id, RejectReason::DuplicateOrderId)
            } else if m.cfg.level_of(price) is None {
                ref_refused(m, seq, order_id, RejectReason::PriceOutOfBounds)
            } else if m.live() >= m.cfg.max_live_orders {
                ref_refused(m, seq, order_id, RejectReason::ArenaFull)
            } else if tif == TimeInForce::Fok && ref_available(t, m.side(side.opposite()))
                < qty.0 {
                ref_refused(m, seq, order_id, RejectReason::FokUnfillable)
            } else {
                let e = ref_enter(m, t, qty.0, tif);
                RefStep {
                    book: e.book,
                    events: seq![OutputEvent::Ack { seq, order_id }] + e.events,
                }
            }
        },
        InputEvent::Cancel { seq, order_id, trader } => match m.find(order_id) {
            None => ref_refused(m, seq, order_id, RejectReason::UnknownOrderId),
            Some(o) => if o.trader != trader {
                ref_refused(m, seq, order_id, RejectReason::WrongTrader)
            } else {
                RefStep {
                    book: m.removed(order_id),
                    events: seq![
                        OutputEvent::Cancelled {
                            seq,
                            order_id,
                            remaining: Qty(o.remaining),
                            reason: CancelReason::User,
                        },
                    ],
                }
            },
        },
        InputEvent::Modify { seq, order_id, trader, new_price, new_qty } => match m.find(order_id) {
            None => ref_refused(m, seq, order_id, RejectReason::UnknownOrderId),
            Some(o) => if o.trader != trader {
                ref_refused(m, seq, order_id, RejectReason::WrongTrader)
            } else if new_qty.0 == 0 {
                ref_refused(m, seq, order_id, RejectReason::ZeroQty)
            } else if m.cfg.level_of(new_price) is None {
                ref_refused(m, seq, order_id, RejectReason::PriceOutOfBounds)
            } else {
                let t = Taker {
                    seq,
                    id: order_id,
                    trader,
                    side: o.side,
                    price: new_price,
                    stp: o.stp,
                };
                let e = ref_enter(m.removed(order_id), t, new_qty.0, TimeInForce::Gtc);
                RefStep {
                    book: e.book,
                    events: seq![
                        OutputEvent::Cancelled {
                            seq,
                            order_id,
                            remaining: Qty(o.remaining),
                            reason: CancelReason::User,
                        },
                        OutputEvent::Ack { seq, order_id },
                    ] + e.events,
                }
            },
        },
    }
}

/// Taking orders out keeps the others sorted.
pub proof fn lemma_filter_sorted(q: Seq<RefOrder>, p: spec_fn(RefOrder) -> bool, s: Side)
    requires
        by_priority(q, s),
    ensures
        by_priority(q.filter(p), s),
        q.filter(p).len() <= q.len(),
        forall|j: int| 0 <= j < q.filter(p).len() ==> q.contains(#[trigger] q.filter(p)[j]),
    decreases q.len(),
{
    reveal(Seq::filter);
    if q.len() > 0 {
        let d = q.drop_last();
        assert forall|i: int, j: int| 0 <= i < j < d.len() implies !(
        #[trigger] d[j]).precedes(#[trigger] d[i], s) by {
            assert(d[i] == q[i] && d[j] == q[j]);
        }
        lemma_filter_sorted(d, p, s);
        let f = d.filter(p);
        assert forall|j: int| 0 <= j < f.len() implies q.contains(#[trigger] f[j]) by {
            let k = d.index_of(f[j]);
            assert(d.contains(f[j]));
            assert(q[k] == f[j]);
        }
        if p(q.last()) {
            let g = f.push(q.last());
            assert forall|i: int, j: int| 0 <= i < j < g.len() implies !(
            #[trigger] g[j]).precedes(#[trigger] g[i], s) by {
                if j == f.len() {
                    assert(d.contains(f[i]));
                    let k = d.index_of(f[i]);
                    assert(q[k] == f[i]);
                    assert(!q[q.len() - 1].precedes(q[k], s));
                }
            }
            assert forall|j: int| 0 <= j < g.len() implies q.contains(#[trigger] g[j]) by {
                if j == f.len() {
                    assert(q[q.len() - 1] == g[j]);
                } else {
                    assert(g[j] == f[j]);
                }
            }
        }
    }
}

/// The place by priority.
pub proof fn lemma_rank(q: Seq<RefOrder>, o: RefOrder, s: Side)
    ensures
        0 <= rank(q, o, s) <= q.len(),
        forall|j: int| 0 <= j < rank(q, o, s) ==> !o.precedes(#[trigger] q[j], s),
        rank(q, o, s) < q.len() ==> o.precedes(q[rank(q, o, s)], s),
    decreases q.len(),
{
    if q.len() > 0 && !o.precedes(q[0], s) {
        let t = q.skip(1);
        lemma_rank(t, o, s);
        assert forall|j: int| 0 <= j < rank(q, o, s) implies !o.precedes(#[trigger] q[j], s) by {
            if j > 0 {
                assert(q[j] == t[j - 1]);
            }
        }
    }
}

/// The place by priority is the only one that fits.
pub proof fn lemma_rank_unique(q: Seq<RefOrder>, o: RefOrder, s: Side, n: int)
    requires
        0 <= n <= q.len(),
        forall|j: int| 0 <= j < n ==> !o.precedes(#[trigger] q[j], s),
        n < q.len() ==> o.precedes(q[n], s),
    ensures
        rank(q, o, s) == n,
{
    lemma_rank(q, o, s);
    let r = rank(q, o, s);
    if r < n {
        assert(!o.precedes(q[r], s));
    }
    if n < r {
        assert(!o.precedes(q[n], s));
    }
}

/// Putting an order in its place keeps a side sorted.
pub proof fn lemma_insert_sorted(q: Seq<RefOrder>, o: RefOrder, s: Side)
    requires
        by_priority(q, s),
    ensures
        by_priority(q.insert(rank(q, o, s), o), s),
{
    lemma_rank(q, o, s);
    let r = rank(q, o, s);
    let g = q.insert(r, o);
    assert forall|i: int, j: int| 0 <= i < j < g.len() implies !(#[trigger] g[j]).precedes(
        #[trigger] g[i],
        s,
    ) by {
        let qi = if i < r { q[i] } else if i > r { q[i - 1] } else { o };
        let qj = if j < r { q[j] } else if j > r { q[j - 1] } else { o };
        assert(g[i] == qi && g[j] == qj);
        if i == r && j > r {
            // `o` precedes the order that took its place, which no later one precedes.
            assert(o.precedes(q[r], s));
            if j - 1 > r {
                assert(!q[j - 1].precedes(q[r], s));
            }
        }
    }
}

/// Matching leaves a sorted side sorted.
pub proof fn lemma_sweep_sorted(t: Taker, q: Seq<RefOrder>, remaining: u64, s: Side)
    requires
        by_priority(q, s),
    ensures
        by_priority(ref_sweep(t, q, remaining).rest, s),
        ref_sweep(t, q, remaining).rest.len() <= q.len(),
    decreases q.len(),
{
    if q.len() > 0 {
        let d = q.skip(1);
        assert forall|i: int, j: int| 0 <= i < j < d.len() implies !(
        #[trigger] d[j]).precedes(#[trigger] d[i], s) by {
            assert(d[i] == q[i + 1] && d[j] == q[j + 1]);
        }
        lemma_sweep_sorted(t, d, remaining, s);
        if q[0].remaining <= remaining {
            lemma_sweep_sorted(t, d, (remaining - q[0].remaining) as u64, s);
        }
    }
}

/// Does an aggressor at `agg_price` cross a resting order at `resting_price`?
fn crosses(aggressor: Side, agg_price: Price, resting_price: Price) -> (r: bool)
    ensures
        r == crosses_at(aggressor, agg_price.0 as int, resting_price.0 as int),
{
    match aggressor {
        Side::Bid => agg_price.0 >= resting_price.0,
        Side::Ask => agg_price.0 <= resting_price.0,
    }
}

/// Whether `a` has strictly better price-time priority than `b` on side `s`.
fn comes_before(a: &RefOrder, b: &RefOrder, s: Side) -> (r: bool)
    ensures
        r == a.precedes(*b, s),
{
    let better = match s {
        Side::Bid => a.price.0 > b.price.0,
        Side::Ask => a.price.0 < b.price.0,
    };
    better || (a.price.0 == b.price.0 && a.seq < b.seq)
}

/// The position of the first order with this id.
fn position(q: &Vec<RefOrder>, id: OrderId) -> (r: Option<usize>)
    ensures
        match r {
            Some(k) => {
                &&& k < q@.len()
                &&& q@[k as int].id == id
                &&& forall|j: int| 0 <= j < k ==> (#[trigger] q@[j]).id != id
            },
            None => forall|j: int| 0 <= j < q@.len() ==> (#[trigger] q@[j]).id != id,
        },
{
    let mut i: usize = 0;
    while i < q.len()
        invariant
            i <= q@.len(),
            forall|j: int| 0 <= j < i ==> (#[trigger] q@[j]).id != id,
        decreases q@.len() - i,
    {
        if q[i].id == id {
            return Some(i);
        }
        i += 1;
    }
    None
}

/// The first order with an id, by its position.
proof fn lemma_first_with(q: Seq<RefOrder>, id: OrderId, k: int)
    requires
        0 <= k <= q.len(),
        forall|j: int| 0 <= j < k ==> (#[trigger] q[j]).id != id,
        k < q.len() ==> q[k].id == id,
    ensures
        first_with(q, id) == (if k < q.len() {
            Some(q[k])
        } else {
            None
        }),
    decreases q.len(),
{
    if q.len() > 0 && k > 0 {
        assert(q[0].id != id);
        let t = q.skip(1);
        assert forall|j: int| 0 <= j < k - 1 implies (#[trigger] t[j]).id != id by {
            assert(t[j] == q[j + 1]);
        }
        lemma_first_with(t, id, k - 1);
    }
}

/// The orders with another id.
fn without_id(q: &Vec<RefOrder>, id: OrderId) -> (r: Vec<RefOrder>)
    ensures
        r@ == q@.filter(not_id(id)),
{
    let mut r: Vec<RefOrder> = Vec::new();
    let mut i: usize = 0;
    proof {
        reveal(Seq::filter);
        assert(q@.take(0).filter(not_id(id)) =~= Seq::empty());
    }
    while i < q.len()
        invariant
            i <= q@.len(),
            r@ == q@.take(i as int).filter(not_id(id)),
        decreases q@.len() - i,
    {
        proof {
            reveal(Seq::filter);
            assert(q@.take(i + 1).drop_last() =~= q@.take(i as int));
        }
        if q[i].id != id {
            r.push(q[i]);
        }
        i += 1;
    }
    proof {
        assert(q@.take(i as int) =~= q@);
    }
    r
}

/// The match loop: cross against the opposite side in priority order.
/// Returns (remaining, killed by self-trade prevention).
fn match_front(
    t: &Taker,
    opp: &mut Vec<RefOrder>,
    qty: u64,
    out: &mut Vec<OutputEvent>,
) -> (r: (u64, bool))
    ensures
        ({
            let w = ref_sweep(*t, old(opp)@, qty);
            &&& final(opp)@ == w.rest
            &&& r.0 == w.remaining
            &&& r.1 == w.killed
            &&& final(out)@ == old(out)@ + w.events
        }),
{
    let ghost q0 = opp@;
    let ghost out0 = out@;
    let mut remaining = qty;
    // Every iteration either consumes the FRONT order (index 0) or
    // exits the loop, so the scan position never advances past 0.
    while remaining > 0 && opp.len() > 0
        invariant
            q0 == old(opp)@,
            out0 == old(out)@,
            ref_sweep(*t, q0, qty).rest == ref_sweep(*t, opp@, remaining).rest,
            ref_sweep(*t, q0, qty).remaining == ref_sweep(*t, opp@, remaining).remaining,
            ref_sweep(*t, q0, qty).killed == ref_sweep(*t, opp@, remaining).killed,
            out0 + ref_sweep(*t, q0, qty).events == out@ + ref_sweep(*t, opp@, remaining).events,
        ensures
            ref_sweep(*t, opp@, remaining) == (RefSweep {
                rest: opp@,
                remaining,
                killed: false,
                events: Seq::empty(),
            }),
        decreases opp@.len(), remaining,
    {
        let ghost before = out@;
        let ghost wanted = remaining;
        let ghost q = opp@;
        let maker = opp[0];
        if !crosses(t.side, t.price, maker.price) {
            break;  // no longer marketable
        }
        let resting = OutputEvent::Cancelled {
            seq: t.seq,
            order_id: maker.id,
            remaining: Qty(maker.remaining),
            reason: CancelReason::SelfTradePrevention,
        };
        let incoming = OutputEvent::Cancelled {
            seq: t.seq,
            order_id: t.id,
            remaining: Qty(remaining),
            reason: CancelReason::SelfTradePrevention,
        };
        proof {
            assert(q.remove(0) =~= q.skip(1));
            assert(t.reaches(maker.meaning()));
        }
        // -- Self-trade prevention --
        if t.stp != SelfTradePrevention::Disabled && maker.trader == t.trader {
            match t.stp {
                SelfTradePrevention::CancelResting => {
                    let _ = opp.remove(0);
                    out.push(resting);
                    proof {
                        assert(out@ + ref_sweep(*t, opp@, remaining).events =~= before + (seq![
                            resting,
                        ] + ref_sweep(*t, opp@, remaining).events));
                    }
                },
                SelfTradePrevention::CancelAggressor => {
                    out.push(incoming);
                    proof {
                        assert(out@ =~= before + seq![incoming]);
                    }
                    return (remaining, true);
                },
                _ => {
                    let _ = opp.remove(0);
                    out.push(resting);
                    out.push(incoming);
                    proof {
                        assert(out@ =~= before + seq![resting, incoming]);
                    }
                    return (remaining, true);
                },
            }
        } else {
            // -- Fill. ALWAYS at the resting order's price. --
            let fill_qty = if remaining < maker.remaining {
                remaining
            } else {
                maker.remaining
            };
            let fill = OutputEvent::Fill {
                seq: t.seq,
                taker: t.id,
                maker: maker.id,
                price: maker.price,
                qty: Qty(fill_qty),
                taker_side: t.side,
            };
            out.push(fill);
            remaining -= fill_qty;
            if maker.remaining == fill_qty {
                let _ = opp.remove(0);  // fully filled maker leaves the book
                proof {
                    assert(out@ + ref_sweep(*t, opp@, remaining).events =~= before + (seq![fill]
                        + ref_sweep(*t, opp@, remaining).events));
                }
            } else {
                opp[0].remaining = maker.remaining - fill_qty;
                // `remaining` is now 0 and the loop exits on its own.
                proof {
                    assert(opp@ =~= q.update(
                        0,
                        RefOrder { remaining: (maker.remaining - wanted) as u64, ..maker },
                    ));
                    assert(out@ + Seq::<OutputEvent>::empty() =~= before + seq![fill]);
                }
            }
        }
    }
    proof {
        assert(out@ + Seq::<OutputEvent>::empty() =~= out@);
    }
    (remaining, false)
}

/// The oracle.
pub struct ReferenceBook {
    cfg: BookConfig,
    /// Kept sorted: price DESC, then seq ASC. Front = highest priority.
    bids: Vec<RefOrder>,
    /// Kept sorted: price ASC, then seq ASC. Front = highest priority.
    asks: Vec<RefOrder>,
}

impl View for ReferenceBook {
    type V = RefModel;

    closed spec fn view(&self) -> RefModel {
        RefModel { cfg: self.cfg, bids: self.bids@, asks: self.asks@ }
    }
}

impl ReferenceBook {
    /// An empty oracle.
    pub fn new(cfg: BookConfig) -> (r: Self)
        requires
            cfg.tick_size >= 1,
        ensures
            r@ == RefModel::empty(cfg),
            r@.wf(),
    {
        let r = ReferenceBook { cfg, bids: Vec::new(), asks: Vec::new() };
        proof {
            assert(r@ =~= RefModel::empty(cfg));
        }
        r
    }

    /// The configuration the oracle was made with.
    pub fn config(&self) -> (c: &BookConfig)
        ensures
            *c == self@.cfg,
    {
        &self.cfg
    }

    /// Apply one input event; the output events are returned.
    pub fn apply(&mut self, ev: InputEvent) -> (out: Vec<OutputEvent>)
        requires
            old(self)@.wf(),
        ensures
            final(self)@.wf(),
            final(self)@ == ref_step(old(self)@, ev).book,
            out@ == ref_step(old(self)@, ev).events,
    {
        let mut out: Vec<OutputEvent> = Vec::new();
        match ev {
            InputEvent::New { seq, order_id, trader, side, price, qty, tif, stp } => {
                // -- Validation, in the fixed order both engines share. --
                if qty.0 == 0 {
                    out.push(rejected(seq, order_id, RejectReason::ZeroQty));
                    return out;
                }
                if self.find(order_id).is_some() {
                    out.push(rejected(seq, order_id, RejectReason::DuplicateOrderId));
                    return out;
                }
                if self.cfg.price_to_idx(price).is_none() {
                    out.push(rejected(seq, order_id, RejectReason::PriceOutOfBounds));
                    return out;
                }
                if self.live_count() >= self.cfg.max_live_orders as usize {
                    out.push(rejected(seq, order_id, RejectReason::ArenaFull));
                    return out;
                }
                let t = Taker { seq, id: order_id, trader, side, price, stp };
                if tif == TimeInForce::Fok && !self.can_fill_fully(&t, qty) {
                    out.push(rejected(seq, order_id, RejectReason::FokUnfillable));
                    return out;
                }
                out.push(OutputEvent::Ack { seq, order_id });
                self.do_new(&t, qty, tif, &mut out);
                proof {
                    assert(seq![OutputEvent::Ack { seq, order_id }] =~= Seq::empty().push(
                        OutputEvent::Ack { seq, order_id },
                    ));
                }
            },
            InputEvent::Cancel { seq, order_id, trader } => {
                let o = match self.find(order_id) {
                    Some(o) => *o,
                    None => {
                        out.push(rejected(seq, order_id, RejectReason::UnknownOrderId));
                        return out;
                    },
                };
                if o.trader != trader {
                    out.push(rejected(seq, order_id, RejectReason::WrongTrader));
                    return out;
                }
                self.remove(order_id);
                out.push(
                    OutputEvent::Cancelled {
                        seq,
                        order_id,
                        remaining: Qty(o.remaining),
                        reason: CancelReason::User,
                    },
                );
            },
            InputEvent::Modify { seq, order_id, trader, new_price, new_qty } => {
                // Validate everything BEFORE touching the book: a rejected
                // modify must leave the book untouched.
                let o = match self.find(order_id) {
                    Some(o) => *o,
                    None => {
                        out.push(rejected(seq, order_id, RejectReason::UnknownOrderId));
                        return out;
                    },
                };
                if o.trader != trader {
                    out.push(rejected(seq, order_id, RejectReason::WrongTrader));
                    return out;
                }
                if new_qty.0 == 0 {
                    out.push(rejected(seq, order_id, RejectReason::ZeroQty));
                    return out;
                }
                if self.cfg.price_to_idx(new_price).is_none() {
                    out.push(rejected(seq, order_id, RejectReason::PriceOutOfBounds));
                    return out;
                }

                // Modify = cancel + new. The new leg re-enters the match
                // loop with a fresh seq, so it ALWAYS loses time priority,
                // even when the price is unchanged. Deliberate.
                self.remove(order_id);
                let gone = OutputEvent::Cancelled {
                    seq,
                    order_id,
                    remaining: Qty(o.remaining),
                    reason: CancelReason::User,
                };
                out.push(gone);
                out.push(OutputEvent::Ack { seq, order_id });
                let t = Taker { seq, id: order_id, trader, side: o.side, price: new_price, stp: o.stp };
                proof {
                    self@.lemma_removed_room(old(self)@, order_id);
                }
                self.do_new(&t, new_qty, TimeInForce::Gtc, &mut out);
                proof {
                    assert(seq![gone, OutputEvent::Ack { seq, order_id }]
                        =~= Seq::empty().push(gone).push(OutputEvent::Ack { seq, order_id }));
                }
            },
        }
        out
    }

    /// Cross, then rest (good-till-cancel) or kill the remainder. Assumes
    /// validation and the Ack already happened.
    fn do_new(&mut self, t: &Taker, qty: Qty, tif: TimeInForce, out: &mut Vec<OutputEvent>)
        requires
            old(self)@.wf(),
            old(self)@.live() < old(self)@.cfg.max_live_orders,
        ensures
            final(self)@.wf(),
            final(self)@ == ref_enter(old(self)@, *t, qty.0, tif).book,
            final(out)@ == old(out)@ + ref_enter(old(self)@, *t, qty.0, tif).events,
    {
        let ghost before = self@;
        let ghost opp = t.side.opposite();
        let ghost w = ref_sweep(*t, before.side(opp), qty.0);
        proof {
            lemma_sweep_sorted(*t, before.side(opp), qty.0, opp);
        }
        let (remaining, killed) = match t.side {
            Side::Bid => match_front(t, &mut self.asks, qty.0, out),
            Side::Ask => match_front(t, &mut self.bids, qty.0, out),
        };
        proof {
            assert(self@ =~= before.with_side(opp, w.rest));
        }
        if killed || remaining == 0 {
            return;
        }
        match tif {
            TimeInForce::Gtc => {
                let o = RefOrder {
                    id: t.id,
                    trader: t.trader,
                    side: t.side,
                    price: t.price,
                    remaining,
                    original: qty.0,
                    seq: t.seq.0,
                    stp: t.stp,
                };
                let ghost crossed = self@;
                proof {
                    lemma_insert_sorted(crossed.side(t.side), o, t.side);
                    lemma_rank(crossed.side(t.side), o, t.side);
                }
                match t.side {
                    Side::Bid => insert_by_priority(&mut self.bids, o, Side::Bid),
                    Side::Ask => insert_by_priority(&mut self.asks, o, Side::Ask),
                }
                proof {
                    assert(self@ =~= crossed.rested(o));
                }
            },
            // A fill-or-kill order was checked beforehand and never gets here
            // with anything left.
            TimeInForce::Ioc | TimeInForce::Fok => {
                let ghost mid = out@;
                let ev = OutputEvent::Cancelled {
                    seq: t.seq,
                    order_id: t.id,
                    remaining: Qty(remaining),
                    reason: CancelReason::Ioc,
                };
                out.push(ev);
                proof {
                    assert(out@ =~= old(out)@ + w.events.push(ev));
                }
            },
        }
    }

    /// Fill-or-kill pre-check: can `qty` fill completely without mutating
    /// anything?
    ///
    /// Aware of self-trade prevention, because that changes what is fillable:
    /// - `CancelResting`: own resting orders would be cancelled, not
    ///   filled, so they contribute nothing and are skipped.
    /// - `CancelAggressor` / `CancelBoth`: hitting an own order kills the
    ///   aggressor, so only quantity resting AHEAD of the first own order
    ///   counts.
    fn can_fill_fully(&self, t: &Taker, qty: Qty) -> (r: bool)
        requires
            self@.wf(),
            qty.0 > 0,
        ensures
            r == (ref_available(*t, self@.side(t.side.opposite())) >= qty.0),
    {
        let opp = match t.side {
            Side::Bid => &self.asks,
            Side::Ask => &self.bids,
        };
        let ghost q = opp@;
        let mut available: u128 = 0;
        let mut i: usize = 0;
        proof {
            assert(q.skip(0) =~= q);
        }
        while i < opp.len()
            invariant
                q == opp@,
                q == self@.side(t.side.opposite()),
                q.len() <= u32::MAX,
                i <= q.len(),
                available < qty.0,
                available <= i * 0xffff_ffff_ffff_ffff,
                ref_available(*t, q) == available + ref_available(*t, q.skip(i as int)),
            ensures
                ref_available(*t, q) == available,
                available < qty.0,
            decreases q.len() - i,
        {
            let o = opp[i];
            proof {
                assert(q.skip(i as int).skip(1) =~= q.skip(i + 1));
                assert(q.skip(i as int)[0] == o);
            }
            if !crosses(t.side, t.price, o.price) {
                break;
            }
            if t.stp != SelfTradePrevention::Disabled && o.trader == t.trader {
                if t.stp != SelfTradePrevention::CancelResting {
                    break;
                }
            } else {
                available += o.remaining as u128;
                if available >= qty.0 as u128 {
                    return true;
                }
            }
            i += 1;
        }
        false
    }

    // ---- Introspection (for tests and the differential harness only) ----

    /// The resting order with this id.
    pub fn find(&self, id: OrderId) -> (r: Option<&RefOrder>)
        ensures
            match r {
                Some(o) => self@.find(id) == Some(*o),
                None => self@.find(id) is None,
            },
    {
        let ghost q = self@.bids + self@.asks;
        let ghost n = self.bids@.len() as int;
        match position(&self.bids, id) {
            Some(k) => {
                proof {
                    assert forall|j: int| 0 <= j < k implies (#[trigger] q[j]).id != id by {
                        assert(q[j] == self.bids@[j]);
                    }
                    lemma_first_with(q, id, k as int);
                }
                Some(&self.bids[k])
            },
            None => match position(&self.asks, id) {
                Some(k) => {
                    proof {
                        assert forall|j: int| 0 <= j < n + k implies (#[trigger] q[j]).id != id by {
                            if j < n {
                                assert(q[j] == self.bids@[j]);
                            } else {
                                assert(q[j] == self.asks@[j - n]);
                            }
                        }
                        lemma_first_with(q, id, n + k);
                    }
                    Some(&self.asks[k])
                },
                None => {
                    proof {
                        assert forall|j: int| 0 <= j < q.len() implies (#[trigger] q[j]).id
                            != id by {
                            if j < n {
                                assert(q[j] == self.bids@[j]);
                            } else {
                                assert(q[j] == self.asks@[j - n]);
                            }
                        }
                        lemma_first_with(q, id, q.len() as int);
                    }
                    None
                },
            },
        }
    }

    fn remove(&mut self, id: OrderId)
        requires
            old(self)@.wf(),
        ensures
            final(self)@ == old(self)@.removed(id),
            final(self)@.wf(),
    {
        proof {
            lemma_filter_sorted(self.bids@, not_id(id), Side::Bid);
            lemma_filter_sorted(self.asks@, not_id(id), Side::Ask);
        }
        let ghost before = self@;
        self.bids = without_id(&self.bids, id);
        self.asks = without_id(&self.asks, id);
        proof {
            assert(self@ =~= before.removed(id));
        }
    }

    /// How many orders rest.
    pub fn live_count(&self) -> (n: usize)
        requires
            self@.live() <= usize::MAX,
        ensures
            n == self@.live(),
    {
        self.bids.len() + self.asks.len()
    }

    /// The price of the first bid.
    pub fn best_bid(&self) -> (p: Option<Price>)
        ensures
            p == (if self@.bids.len() > 0 {
                Some(self@.bids[0].price)
            } else {
                None
            }),
    {
        if self.bids.len() == 0 {
            None
        } else {
            Some(self.bids[0].price)
        }
    }

    /// The price of the first ask.
    pub fn best_ask(&self) -> (p: Option<Price>)
        ensures
            p == (if self@.asks.len() > 0 {
                Some(self@.asks[0].price)
            } else {
                None
            }),
    {
        if self.asks.len() == 0 {
            None
        } else {
            Some(self.asks[0].price)
        }
    }

    /// All live orders on one side, in exact price-time priority order.
    pub fn side_orders(&self, side: Side) -> (r: &[RefOrder])
        ensures
            r@ == self@.side(side),
    {
        match side {
            Side::Bid => self.bids.as_slice(),
            Side::Ask => self.asks.as_slice(),
        }
    }

    /// Semantic state hash, byte-identical to that of the fast engine:
    /// bids then asks, levels ascending by index, orders in priority order
    /// within a level. Written in the oracle's slow-and-obvious style (a
    /// full level scan per side), so the two implementations share
    /// nothing but the canonical definition.
    pub fn state_hash(&self) -> (r: u64)
        requires
            self@.wf(),
        ensures
            r == book_hash(self@.shelved()),
    {
        let mut h = Fnv1a::new();
        self.hash_side(Side::Bid, &mut h);
        self.hash_side(Side::Ask, &mut h);
        proof {
            let m = self@.shelved();
            law_fnv_concat(FNV_OFFSET, side_bytes(m, Side::Bid), side_bytes(m, Side::Ask));
        }
        h.finish()
    }

    fn hash_side(&self, side: Side, h: &mut Fnv1a)
        requires
            self@.wf(),
        ensures
            final(h).state() == fnv(old(h).state(), side_bytes(self@.shelved(), side)),
    {
        let ghost start = h.state();
        let ghost first = seq![side.to_u8()];
        let ghost l = self@.shelved().side(side);
        let ghost q = self@.side(side);
        h.write_u8(side.to_u8());
        let orders = self.side_orders(side);
        let n = self.cfg.num_levels;
        let mut i: u32 = 0;
        proof {
            assert(first + ladder_bytes(l, 0) =~= first);
        }
        while i < n
            invariant
                self@.wf(),
                q == self@.side(side),
                orders@ == q,
                q.len() <= u32::MAX,
                l == self@.shelved().side(side),
                n == self@.cfg.num_levels == l.len(),
                i <= n,
                h.state() == fnv(start, first + ladder_bytes(l, i as int)),
            decreases n - i,
        {
            proof {
                law_fnv_concat(start, first + ladder_bytes(l, i as int), level_bytes(l, i as int));
                assert(first + ladder_bytes(l, i + 1) =~= first + ladder_bytes(l, i as int)
                    + level_bytes(l, i as int));
                lemma_filter_len(q, on_shelf(self@.cfg, i as int));
            }
            // The side is sorted by price and seq, so filtering one level
            // preserves FIFO order.
            let shelf = self.level_orders(orders, i);
            if shelf.len() > 0 {
                hash_shelf(&shelf, i, h, Ghost(l));
            } else {
                proof {
                    assert(first + ladder_bytes(l, i as int) + level_bytes(l, i as int) =~= first
                        + ladder_bytes(l, i as int));
                }
            }
            i += 1;
        }
    }

    /// The orders of one level.
    fn level_orders(&self, orders: &[RefOrder], lvl: u32) -> (r: Vec<RefOrder>)
        requires
            self@.cfg.tick_size >= 1,
        ensures
            r@ == orders@.filter(on_shelf(self@.cfg, lvl as int)),
    {
        let ghost p = on_shelf(self@.cfg, lvl as int);
        let mut r: Vec<RefOrder> = Vec::new();
        let mut i: usize = 0;
        proof {
            reveal(Seq::filter);
            assert(orders@.take(0).filter(p) =~= Seq::empty());
        }
        while i < orders.len()
            invariant
                self@.cfg.tick_size >= 1,
                p == on_shelf(self@.cfg, lvl as int),
                i <= orders@.len(),
                r@ == orders@.take(i as int).filter(p),
            decreases orders@.len() - i,
        {
            proof {
                reveal(Seq::filter);
                assert(orders@.take(i + 1).drop_last() =~= orders@.take(i as int));
            }
            let here = match self.cfg.price_to_idx(orders[i].price) {
                Some(l) => l == lvl,
                None => false,
            };
            if here {
                r.push(orders[i]);
            }
            i += 1;
        }
        proof {
            assert(orders@.take(i as int) =~= orders@);
        }
        r
    }
}

impl RefModel {
    /// Taking a found order out makes room for another.
    pub proof fn lemma_removed_room(self, before: RefModel, id: OrderId)
        requires
            before.wf(),
            before.find(id) is Some,
            self == before.removed(id),
        ensures
            self.live() < before.live(),
    {
        lemma_filter_len(before.bids, not_id(id));
        lemma_filter_len(before.asks, not_id(id));
        let q = before.bids + before.asks;
        lemma_first_exists(q, id);
        let k = choose|k: int| 0 <= k < q.len() && (#[trigger] q[k]).id == id;
        if k < before.bids.len() {
            lemma_filter_drops(before.bids, id, k);
        } else {
            lemma_filter_drops(before.asks, id, k - before.bids.len());
        }
    }
}

/// A found order stands somewhere.
pub proof fn lemma_first_exists(q: Seq<RefOrder>, id: OrderId)
    ensures
        first_with(q, id) is Some <==> exists|k: int| 0 <= k < q.len() && (#[trigger] q[k]).id
            == id,
        first_with(q, id) matches Some(o) ==> o.id == id && q.contains(o),
    decreases q.len(),
{
    if q.len() > 0 {
        let t = q.skip(1);
        lemma_first_exists(t, id);
        if q[0].id == id {
            assert(q.contains(q[0]));
        } else {
            if first_with(t, id) is Some {
                let k = choose|k: int| 0 <= k < t.len() && (#[trigger] t[k]).id == id;
                assert(q[k + 1].id == id);
                let o = first_with(t, id)->0;
                let j = t.index_of(o);
                assert(q[j + 1] == o);
            }
            if exists|k: int| 0 <= k < q.len() && (#[trigger] q[k]).id == id {
                let k = choose|k: int| 0 <= k < q.len() && (#[trigger] q[k]).id == id;
                assert(t[k - 1].id == id);
            }
        }
    }
}

/// A filtered list is no longer than the list.
pub proof fn lemma_filter_len(q: Seq<RefOrder>, p: spec_fn(RefOrder) -> bool)
    ensures
        q.filter(p).len() <= q.len(),
{
    q.lemma_filter_len(p);
}

/// Filtering an order out makes the list shorter.
proof fn lemma_filter_drops(q: Seq<RefOrder>, id: OrderId, k: int)
    requires
        0 <= k < q.len(),
        q[k].id == id,
    ensures
        q.filter(not_id(id)).len() < q.len(),
    decreases q.len(),
{
    reveal(Seq::filter);
    let d = q.drop_last();
    d.lemma_filter_len(not_id(id));
    if k < q.len() - 1 {
        lemma_filter_drops(d, id, k);
    }
}

/// Put an order in its place: behind every order it does not precede.
fn insert_by_priority(q: &mut Vec<RefOrder>, o: RefOrder, s: Side)
    ensures
        final(q)@ == old(q)@.insert(rank(old(q)@, o, s), o),
{
    let mut i: usize = 0;
    while i < q.len() && !comes_before(&o, &q[i], s)
        invariant
            q@ == old(q)@,
            i <= q@.len(),
            forall|j: int| 0 <= j < i ==> !o.precedes(#[trigger] q@[j], s),
        decreases q@.len() - i,
    {
        i += 1;
    }
    proof {
        lemma_rank_unique(q@, o, s, i as int);
    }
    q.insert(i, o);
}

/// Feed one level to a hash.
fn hash_shelf(shelf: &Vec<RefOrder>, i: u32, h: &mut Fnv1a, Ghost(l): Ghost<Ladder>)
    requires
        i < l.len(),
        0 < shelf@.len() <= u32::MAX,
        l[i as int] == meanings(shelf@),
    ensures
        final(h).state() == fnv(old(h).state(), level_bytes(l, i as int)),
{
    let ghost start = h.state();
    let ghost q = meanings(shelf@);
    let ghost head = le(i as nat, 4) + le(queue_qty(q), 16) + le(q.len(), 4);
    let mut total: u128 = 0;
    let mut k: usize = 0;
    proof {
        assert(q.take(0).len() == 0);
    }
    while k < shelf.len()
        invariant
            q == meanings(shelf@),
            k <= shelf@.len() <= u32::MAX,
            total == queue_qty(q.take(k as int)),
            total <= k * 0xffff_ffff_ffff_ffff,
        decreases shelf@.len() - k,
    {
        proof {
            assert(q.take(k + 1).drop_last() =~= q.take(k as int));
        }
        total += shelf[k].remaining as u128;
        k += 1;
    }
    proof {
        assert(q.take(k as int) =~= q);
        assert(head + queue_bytes(q.take(0)) =~= head);
    }
    feed_level(h, i, total, shelf.len() as u32);
    let mut j: usize = 0;
    while j < shelf.len()
        invariant
            q == meanings(shelf@),
            j <= shelf@.len(),
            h.state() == fnv(start, head + queue_bytes(q.take(j as int))),
        decreases shelf@.len() - j,
    {
        proof {
            let t = q.take(j + 1);
            assert(t.drop_last() =~= q.take(j as int));
            assert(head + queue_bytes(t) =~= head + queue_bytes(q.take(j as int)) + order_bytes(
                q[j as int],
            ));
            law_fnv_concat(start, head + queue_bytes(q.take(j as int)), order_bytes(q[j as int]));
        }
        let o = &shelf[j];
        feed_order(h, o.id.0, o.price.0, o.remaining, o.trader.0);
        j += 1;
    }
    proof {
        assert(q.take(j as int) =~= q);
    }
}

/// A refusal.
fn rejected(seq: SeqNo, order_id: OrderId, reason: RejectReason) -> (ev: OutputEvent)
    ensures
        ev == (OutputEvent::Rejected { seq, order_id, reason }),
{
    OutputEvent::Rejected { seq, order_id, reason }
}

} // verus!
