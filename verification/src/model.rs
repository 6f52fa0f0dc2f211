//! What a limit order book means: the mathematical book, and what each
//! instruction does to it.
//!
//! One side of the mathematical book is a ladder: for every price level the
//! queue of orders that rest there, oldest first. An aggressor always meets
//! the oldest order of the best non-empty level of the other side.

use crate::config::BookConfig;
use crate::events::{CancelReason, InputEvent, OutputEvent, RejectReason};
use crate::snapshot::SnapOrder;
use crate::types::{OrderId, Price, Qty, SelfTradePrevention, SeqNo, Side, TimeInForce, TraderId};
use vstd::prelude::*;

verus! {

/// One side of a book: per price level, lowest price first, the orders
/// resting there, oldest first.
pub type Ladder = Seq<Seq<SnapOrder>>;

/// How many orders rest on a ladder.
pub open spec fn order_total(l: Ladder) -> nat
    decreases l.len(),
{
    if l.len() == 0 {
        0
    } else {
        order_total(l.drop_last()) + l.last().len()
    }
}

/// Changing one queue changes the total by the difference in its length.
pub proof fn lemma_total_update(l: Ladder, b: int, q: Seq<SnapOrder>)
    requires
        0 <= b < l.len(),
    ensures
        order_total(l.update(b, q)) == order_total(l) - l[b].len() + q.len(),
        order_total(l) >= l[b].len(),
    decreases l.len(),
{
    if b == l.len() - 1 {
        assert(l.update(b, q).drop_last() =~= l.drop_last());
    } else {
        lemma_total_update(l.drop_last(), b, q);
        assert(l.update(b, q).drop_last() =~= l.drop_last().update(b, q));
    }
}

/// A ladder of shorter queues holds fewer orders.
pub proof fn lemma_total_part(a: Ladder, b: Ladder)
    requires
        a.len() == b.len(),
        forall|i: int| 0 <= i < a.len() ==> (#[trigger] a[i]).len() <= b[i].len(),
    ensures
        order_total(a) <= order_total(b),
    decreases a.len(),
{
    if a.len() > 0 {
        let n = a.len() - 1;
        assert(a[n].len() <= b[n].len());
        assert forall|i: int| 0 <= i < a.drop_last().len() implies (
        #[trigger] a.drop_last()[i]).len() <= b.drop_last()[i].len() by {
            assert(a[i].len() <= b[i].len());
        }
        lemma_total_part(a.drop_last(), b.drop_last());
    }
}

/// A ladder without orders has a total of zero.
pub proof fn lemma_total_empty(l: Ladder)
    ensures
        (forall|i: int| 0 <= i < l.len() ==> (#[trigger] l[i]).len() == 0) <==> order_total(l) == 0,
    decreases l.len(),
{
    if l.len() > 0 {
        let d = l.drop_last();
        lemma_total_empty(d);
        assert forall|i: int| 0 <= i < d.len() implies (#[trigger] d[i]) == l[i] by {}
        if order_total(l) == 0 {
            assert forall|i: int| 0 <= i < l.len() implies (#[trigger] l[i]).len() == 0 by {
                if i < d.len() {
                    assert(d[i].len() == 0);
                }
            }
        }
    }
}

/// `b` is the best non-empty level: the highest price for bids, the lowest
/// for asks.
pub open spec fn is_best_level(side: Side, l: Ladder, b: int) -> bool {
    &&& 0 <= b < l.len()
    &&& l[b].len() > 0
    &&& forall|j: int|
        0 <= j < l.len() && (#[trigger] l[j]).len() > 0 ==> match side {
            Side::Bid => j <= b,
            Side::Ask => j >= b,
        }
}

/// The best non-empty level, `None` on an empty ladder.
pub open spec fn best_level(side: Side, l: Ladder) -> Option<int> {
    if exists|b: int| is_best_level(side, l, b) {
        Some(choose|b: int| is_best_level(side, l, b))
    } else {
        None
    }
}

/// There is only one best level.
pub proof fn lemma_best_unique(side: Side, l: Ladder, b: int)
    requires
        is_best_level(side, l, b),
    ensures
        best_level(side, l) == Some(b),
{
    let c = choose|c: int| is_best_level(side, l, c);
    assert(is_best_level(side, l, c));
    assert(l[b].len() > 0 && l[c].len() > 0);
}

/// A ladder with an order has a best level.
pub proof fn lemma_best_exists(side: Side, l: Ladder, j: int)
    requires
        0 <= j < l.len(),
        l[j].len() > 0,
    ensures
        best_level(side, l) is Some,
        is_best_level(side, l, best_level(side, l)->0),
    decreases
            match side {
                Side::Bid => l.len() - j,
                Side::Ask => j,
            },
{
    if !is_best_level(side, l, j) {
        let k = choose|k: int|
            0 <= k < l.len() && (#[trigger] l[k]).len() > 0 && !(match side {
                Side::Bid => k <= j,
                Side::Ask => k >= j,
            });
        lemma_best_exists(side, l, k);
    }
}

/// A ladder without a best level has no orders.
pub proof fn lemma_best_none(side: Side, l: Ladder)
    requires
        best_level(side, l) is None,
    ensures
        forall|j: int| 0 <= j < l.len() ==> (#[trigger] l[j]).len() == 0,
{
    assert forall|j: int| 0 <= j < l.len() implies (#[trigger] l[j]).len() == 0 by {
        if l[j].len() > 0 {
            lemma_best_exists(side, l, j);
        }
    }
}

/// Changing the queue of the best level leaves it the best level, unless it
/// empties.
pub proof fn lemma_best_kept(side: Side, l: Ladder, b: int, q: Seq<SnapOrder>)
    requires
        is_best_level(side, l, b),
        q.len() > 0,
    ensures
        is_best_level(side, l.update(b, q), b),
{
    let u = l.update(b, q);
    assert forall|j: int| 0 <= j < u.len() && (#[trigger] u[j]).len() > 0 implies match side {
        Side::Bid => j <= b,
        Side::Ask => j >= b,
    } by {
        assert(l[j].len() > 0);
    }
}

/// Does an aggressor at `agg_price` cross a resting order at `resting_price`?
pub open spec fn crosses_at(aggressor: Side, agg_price: int, resting_price: int) -> bool {
    match aggressor {
        Side::Bid => agg_price >= resting_price,
        Side::Ask => agg_price <= resting_price,
    }
}

/// An incoming order, as the matching sees it.
#[derive(Copy, Clone, Debug)]
pub struct Taker {
    pub seq: SeqNo,
    pub id: OrderId,
    pub trader: TraderId,
    pub side: Side,
    pub price: Price,
    pub stp: SelfTradePrevention,
}

impl Taker {
    /// The order reaches `maker` at its price.
    pub open spec fn reaches(self, maker: SnapOrder) -> bool {
        crosses_at(self.side, self.price.0 as int, maker.price as int)
    }

    /// Trading with `maker` would be a self-trade that must not happen.
    pub open spec fn own(self, maker: SnapOrder) -> bool {
        self.stp != SelfTradePrevention::Disabled && maker.trader == self.trader.0
    }

    /// The trade with `maker`. ALWAYS at the resting order's price.
    pub open spec fn fill(self, maker: SnapOrder, qty: u64) -> OutputEvent {
        OutputEvent::Fill {
            seq: self.seq,
            taker: self.id,
            maker: OrderId(maker.order_id),
            price: Price(maker.price),
            qty: Qty(qty),
            taker_side: self.side,
        }
    }

    /// The end of an order, for `reason`.
    pub open spec fn kill(self, id: u64, remaining: u64, reason: CancelReason) -> OutputEvent {
        OutputEvent::Cancelled {
            seq: self.seq,
            order_id: OrderId(id),
            remaining: Qty(remaining),
            reason,
        }
    }
}

/// The ladder without the oldest order of level `b`.
pub open spec fn drop_head(l: Ladder, b: int) -> Ladder {
    l.update(b, l[b].skip(1))
}

/// Taking an order off makes a ladder smaller.
pub proof fn lemma_drop_head(side: Side, l: Ladder, b: int)
    requires
        best_level(side, l) == Some(b),
    ensures
        is_best_level(side, l, b),
        order_total(drop_head(l, b)) == order_total(l) - 1,
{
    assert(is_best_level(side, l, b));
    lemma_total_update(l, b, l[b].skip(1));
}

/// What is left when an incoming order has met the other side.
pub struct Sweep {
    /// The other side afterwards.
    pub ladder: Ladder,
    /// What the incoming order still wants.
    pub remaining: u64,
    /// Self-trade prevention ended the incoming order.
    pub killed: bool,
    pub events: Seq<OutputEvent>,
}

impl Sweep {
    /// The same outcome, with `first` before its events.
    pub open spec fn after(self, first: Seq<OutputEvent>) -> Sweep {
        Sweep { events: first + self.events, ..self }
    }
}

/// Match an incoming order of `remaining` lots against the ladder of the other
/// side: as long as it wants something and reaches the oldest order of the
/// best level, it trades with that order or, on a self-trade, does what its
/// self-trade rule says.
pub open spec fn sweep(t: Taker, l: Ladder, remaining: u64) -> Sweep
    decreases order_total(l),
{
    match best_level(t.side.opposite(), l) {
        None => Sweep { ladder: l, remaining, killed: false, events: Seq::empty() },
        Some(b) => {
            proof {
                lemma_drop_head(t.side.opposite(), l, b);
            }
            let maker = l[b][0];
            if remaining == 0 || !t.reaches(maker) {
                Sweep { ladder: l, remaining, killed: false, events: Seq::empty() }
            } else if t.own(maker) {
                let resting = t.kill(
                    maker.order_id,
                    maker.remaining,
                    CancelReason::SelfTradePrevention,
                );
                let incoming = t.kill(t.id.0, remaining, CancelReason::SelfTradePrevention);
                if t.stp == SelfTradePrevention::CancelResting {
                    sweep(t, drop_head(l, b), remaining).after(seq![resting])
                } else if t.stp == SelfTradePrevention::CancelAggressor {
                    Sweep { ladder: l, remaining, killed: true, events: seq![incoming] }
                } else {
                    Sweep {
                        ladder: drop_head(l, b),
                        remaining,
                        killed: true,
                        events: seq![resting, incoming],
                    }
                }
            } else if maker.remaining <= remaining {
                sweep(t, drop_head(l, b), (remaining - maker.remaining) as u64).after(
                    seq![t.fill(maker, maker.remaining)],
                )
            } else {
                let left = SnapOrder { remaining: (maker.remaining - remaining) as u64, ..maker };
                Sweep {
                    ladder: l.update(b, l[b].update(0, left)),
                    remaining: 0,
                    killed: false,
                    events: seq![t.fill(maker, remaining)],
                }
            }
        },
    }
}

/// How many lots an incoming order could trade at once, whatever it asks for.
/// Own orders count for nothing: under `CancelResting` they are passed over,
/// under the other rules nothing behind the first of them can be reached.
pub open spec fn available(t: Taker, l: Ladder) -> nat
    decreases order_total(l),
{
    match best_level(t.side.opposite(), l) {
        None => 0,
        Some(b) => {
            proof {
                lemma_drop_head(t.side.opposite(), l, b);
            }
            let maker = l[b][0];
            if !t.reaches(maker) {
                0
            } else if t.own(maker) {
                if t.stp == SelfTradePrevention::CancelResting {
                    available(t, drop_head(l, b))
                } else {
                    0
                }
            } else {
                maker.remaining as nat + available(t, drop_head(l, b))
            }
        },
    }
}

/// The quantity that a queue offers.
pub open spec fn queue_qty(q: Seq<SnapOrder>) -> nat
    decreases q.len(),
{
    if q.len() == 0 {
        0
    } else {
        queue_qty(q.drop_last()) + q.last().remaining as nat
    }
}

/// The oldest order's share of a queue.
pub proof fn lemma_queue_front(q: Seq<SnapOrder>)
    requires
        q.len() > 0,
    ensures
        queue_qty(q) == q[0].remaining + queue_qty(q.skip(1)),
    decreases q.len(),
{
    if q.len() == 1 {
        assert(queue_qty(q.drop_last()) == 0);
        assert(queue_qty(q.skip(1)) == 0);
    } else {
        lemma_queue_front(q.drop_last());
        assert(q.skip(1).last() == q.last());
        assert(q.drop_last().skip(1) =~= q.skip(1).drop_last());
    }
}

/// Without self-trade prevention, all of a level that is reached at all can
/// be traded.
pub proof fn lemma_available_level(t: Taker, l: Ladder, b: int)
    requires
        t.stp == SelfTradePrevention::Disabled,
        is_best_level(t.side.opposite(), l, b),
        forall|k: int| 0 <= k < l[b].len() ==> t.reaches(#[trigger] l[b][k]),
    ensures
        available(t, l) == queue_qty(l[b]) + available(t, l.update(b, Seq::empty())),
    decreases l[b].len(),
{
    let opp = t.side.opposite();
    let d = drop_head(l, b);
    lemma_best_unique(opp, l, b);
    lemma_queue_front(l[b]);
    assert(t.reaches(l[b][0]));
    if l[b].len() == 1 {
        assert(l[b].skip(1) =~= Seq::<SnapOrder>::empty());
    } else {
        lemma_best_kept(opp, l, b, l[b].skip(1));
        assert forall|k: int| 0 <= k < d[b].len() implies t.reaches(#[trigger] d[b][k]) by {
            assert(d[b][k] == l[b][k + 1]);
        }
        lemma_available_level(t, d, b);
        assert(d.update(b, Seq::empty()) =~= l.update(b, Seq::empty()));
    }
}

/// The mathematical book.
#[verifier::ext_equal]
pub struct BookModel {
    pub cfg: BookConfig,
    pub bids: Ladder,
    pub asks: Ladder,
}

/// A book and the events that led to it.
pub struct Step {
    pub book: BookModel,
    pub events: Seq<OutputEvent>,
}

/// Every order but the one with this id.
pub open spec fn other_than(id: u64) -> spec_fn(SnapOrder) -> bool {
    |o: SnapOrder| o.order_id != id
}

/// The ladder without the order `id`.
pub open spec fn without(l: Ladder, id: u64) -> Ladder {
    Seq::new(l.len(), |i: int| l[i].filter(other_than(id)))
}

/// A queue without the order `id` is the queue itself where there is none.
pub proof fn lemma_filter_none(q: Seq<SnapOrder>, id: u64)
    requires
        forall|j: int| 0 <= j < q.len() ==> (#[trigger] q[j]).order_id != id,
    ensures
        q.filter(other_than(id)) == q,
    decreases q.len(),
{
    reveal(Seq::filter);
    if q.len() > 0 {
        let d = q.drop_last();
        assert forall|j: int| 0 <= j < d.len() implies (#[trigger] d[j]).order_id != id by {
            assert(d[j] == q[j]);
        }
        lemma_filter_none(d, id);
        assert(d.push(q.last()) =~= q);
        assert(q[q.len() - 1].order_id != id);
    }
}

/// A queue without the order `id`, where that stands at position `k` alone.
pub proof fn lemma_filter_one(q: Seq<SnapOrder>, id: u64, k: int)
    requires
        0 <= k < q.len(),
        forall|j: int| 0 <= j < q.len() ==> ((#[trigger] q[j]).order_id == id <==> j == k),
    ensures
        q.filter(other_than(id)) == q.remove(k),
    decreases q.len(),
{
    reveal(Seq::filter);
    let d = q.drop_last();
    assert forall|j: int| 0 <= j < d.len() implies #[trigger] d[j] == q[j] by {}
    assert(q[q.len() - 1].order_id == id <==> k == q.len() - 1);
    if k == q.len() - 1 {
        lemma_filter_none(d, id);
        assert(q.remove(k) =~= d);
    } else {
        lemma_filter_one(d, id, k);
        assert(d.remove(k).push(q.last()) =~= q.remove(k));
    }
}

impl BookModel {
    /// An empty book.
    pub open spec fn empty(cfg: BookConfig) -> BookModel {
        let none = Seq::new(cfg.num_levels as nat, |i: int| Seq::<SnapOrder>::empty());
        BookModel { cfg, bids: none, asks: none }
    }

    /// One side of the book.
    pub open spec fn side(self, s: Side) -> Ladder {
        match s {
            Side::Bid => self.bids,
            Side::Ask => self.asks,
        }
    }

    /// The book with another ladder on one side.
    pub open spec fn with_side(self, s: Side, l: Ladder) -> BookModel {
        match s {
            Side::Bid => BookModel { bids: l, ..self },
            Side::Ask => BookModel { asks: l, ..self },
        }
    }

    /// The best price of a side, `None` when nothing rests there.
    pub open spec fn best_price(self, s: Side) -> Option<Price> {
        match best_level(s, self.side(s)) {
            Some(b) => Some(Price(self.cfg.price_at(b) as i64)),
            None => None,
        }
    }

    /// How many orders rest on the book.
    pub open spec fn live(self) -> nat {
        order_total(self.bids) + order_total(self.asks)
    }

    /// `o` rests on the book as number `k` of level `i` on side `s`.
    pub open spec fn at(self, s: Side, i: int, k: int) -> bool {
        0 <= i < self.side(s).len() && 0 <= k < self.side(s)[i].len()
    }

    /// The order at a place.
    pub open spec fn order(self, s: Side, i: int, k: int) -> SnapOrder {
        self.side(s)[i][k]
    }

    /// An order with this id rests on the book.
    pub open spec fn has(self, id: u64) -> bool {
        exists|s: Side, i: int, k: int|
            #![trigger self.order(s, i, k)]
            self.at(s, i, k) && self.order(s, i, k).order_id == id
    }

    /// The resting order with this id.
    pub open spec fn find(self, id: u64) -> SnapOrder {
        let (s, i, k) = choose|s: Side, i: int, k: int|
            #![trigger self.order(s, i, k)]
            self.at(s, i, k) && self.order(s, i, k).order_id == id;
        self.order(s, i, k)
    }

    /// The book without the order `id`.
    pub open spec fn removed(self, id: u64) -> BookModel {
        BookModel { bids: without(self.bids, id), asks: without(self.asks, id), ..self }
    }

    /// The book with `o` behind every order of its price.
    pub open spec fn rested(self, o: SnapOrder) -> BookModel {
        let l = self.side(o.side);
        let i = self.cfg.level_of(Price(o.price))->0 as int;
        self.with_side(o.side, l.update(i, l[i].push(o)))
    }

    /// Every order rests at the level of its price, wants something, and has an
    /// id of its own; and there are no more of them than the book has room for.
    pub open spec fn wf(self) -> bool {
        &&& self.cfg.wf()
        &&& self.bids.len() == self.cfg.num_levels
        &&& self.asks.len() == self.cfg.num_levels
        &&& self.live() <= self.cfg.max_live_orders
        &&& forall|s: Side, i: int, k: int|
            #![trigger self.order(s, i, k)]
            self.at(s, i, k) ==> {
                let o = self.order(s, i, k);
                o.side == s && self.cfg.on_level(Price(o.price), i) && o.remaining > 0
            }
        &&& self.unique_ids()
    }

    /// No two orders share an id.
    pub open spec fn unique_ids(self) -> bool {
        forall|s: Side, i: int, k: int, s2: Side, i2: int, k2: int|
            #![trigger self.order(s, i, k), self.order(s2, i2, k2)]
            self.at(s, i, k) && self.at(s2, i2, k2) && self.order(s, i, k).order_id == self.order(
                s2,
                i2,
                k2,
            ).order_id ==> s == s2 && i == i2 && k == k2
    }

    /// No bid reaches an ask.
    pub open spec fn uncrossed(self) -> bool {
        forall|i: int, j: int|
            0 <= i < self.bids.len() && 0 <= j < self.asks.len() && (#[trigger] self.bids[i]).len()
                > 0 && (#[trigger] self.asks[j]).len() > 0 ==> i < j
    }
}

/// Removing an order takes it out of the one place it stands at.
pub proof fn lemma_removed(m: BookModel, s: Side, i: int, k: int)
    requires
        m.unique_ids(),
        m.at(s, i, k),
    ensures
        m.removed(m.order(s, i, k).order_id) == m.with_side(
            s,
            m.side(s).update(i, m.side(s)[i].remove(k)),
        ),
{
    let id = m.order(s, i, k).order_id;
    let new = m.with_side(s, m.side(s).update(i, m.side(s)[i].remove(k)));
    assert forall|s2: Side, i2: int| 0 <= i2 < m.side(s2).len() implies #[trigger] without(
        m.side(s2),
        id,
    )[i2] == new.side(s2)[i2] by {
        let q = m.side(s2)[i2];
        assert forall|j: int| 0 <= j < q.len() implies ((#[trigger] q[j]).order_id == id <==> s2 == s
            && i2 == i && j == k) by {
            assert(m.at(s2, i2, j) && q[j] == m.order(s2, i2, j));
        }
        if s2 == s && i2 == i {
            lemma_filter_one(q, id, k);
        } else {
            lemma_filter_none(q, id);
        }
    }
    assert(without(m.bids, id) =~= new.bids) by {
        assert forall|i2: int| 0 <= i2 < m.bids.len() implies without(m.bids, id)[i2]
            == new.bids[i2] by {
            assert(without(m.side(Side::Bid), id)[i2] == new.side(Side::Bid)[i2]);
        }
    }
    assert(without(m.asks, id) =~= new.asks) by {
        assert forall|i2: int| 0 <= i2 < m.asks.len() implies without(m.asks, id)[i2]
            == new.asks[i2] by {
            assert(without(m.side(Side::Ask), id)[i2] == new.side(Side::Ask)[i2]);
        }
    }
}

/// Level number `k` of a side of `n` levels, best price first.
pub open spec fn rung(s: Side, n: int, k: int) -> int {
    match s {
        Side::Bid => n - 1 - k,
        Side::Ask => k,
    }
}

/// The occupied levels of a side from number `k` on, best price first: each
/// with its price, quantity and number of orders.
pub open spec fn rows(cfg: BookConfig, s: Side, l: Ladder, k: int) -> Seq<(Price, u128, u32)>
    decreases l.len() - k,
{
    if k < 0 || k >= l.len() {
        Seq::empty()
    } else {
        let i = rung(s, l.len() as int, k);
        let row = (Price(cfg.price_at(i) as i64), queue_qty(l[i]) as u128, l[i].len() as u32);
        (if l[i].len() > 0 {
            seq![row]
        } else {
            Seq::empty()
        }) + rows(cfg, s, l, k + 1)
    }
}

/// Empty levels leave no rows.
pub proof fn lemma_rows_skip(cfg: BookConfig, s: Side, l: Ladder, k: int, to: int)
    requires
        0 <= k <= to <= l.len(),
        forall|j: int| k <= j < to ==> (#[trigger] l[rung(s, l.len() as int, j)]).len() == 0,
    ensures
        rows(cfg, s, l, k) == rows(cfg, s, l, to),
    decreases to - k,
{
    if k < to {
        assert(l[rung(s, l.len() as int, k)].len() == 0);
        lemma_rows_skip(cfg, s, l, k + 1, to);
        assert(rows(cfg, s, l, k) =~= rows(cfg, s, l, k + 1));
    }
}

/// A refusal.
pub open spec fn refused(
    m: BookModel,
    seq: SeqNo,
    order_id: OrderId,
    reason: RejectReason,
) -> Step {
    Step { book: m, events: seq![OutputEvent::Rejected { seq, order_id, reason }] }
}

/// An accepted order enters the book: it crosses first; what is left of it
/// rests (good-till-cancel) or is cancelled.
pub open spec fn enter(m: BookModel, t: Taker, qty: u64, tif: TimeInForce) -> Step {
    let opp = t.side.opposite();
    let w = sweep(t, m.side(opp), qty);
    let crossed = m.with_side(opp, w.ladder);
    if w.killed || w.remaining == 0 {
        Step { book: crossed, events: w.events }
    } else if tif == TimeInForce::Gtc {
        Step {
            book: crossed.rested(
                SnapOrder {
                    order_id: t.id.0,
                    trader: t.trader.0,
                    side: t.side,
                    price: t.price.0,
                    remaining: w.remaining,
                    original_qty: qty,
                    stp: t.stp,
                },
            ),
            events: w.events,
        }
    } else {
        Step {
            book: crossed,
            events: w.events.push(t.kill(t.id.0, w.remaining, CancelReason::Ioc)),
        }
    }
}

/// What a new order does.
pub open spec fn step_new(m: BookModel, t: Taker, qty: Qty, tif: TimeInForce) -> Step {
    if qty.0 == 0 {
        refused(m, t.seq, t.id, RejectReason::ZeroQty)
    } else if m.has(t.id.0) {
        refused(m, t.seq, t.id, RejectReason::DuplicateOrderId)
    } else if m.cfg.level_of(t.price) is None {
        refused(m, t.seq, t.id, RejectReason::PriceOutOfBounds)
    } else if m.live() >= m.cfg.max_live_orders {
        refused(m, t.seq, t.id, RejectReason::ArenaFull)
    } else if tif == TimeInForce::Fok && available(t, m.side(t.side.opposite())) < qty.0 {
        refused(m, t.seq, t.id, RejectReason::FokUnfillable)
    } else {
        let e = enter(m, t, qty.0, tif);
        Step {
            book: e.book,
            events: seq![OutputEvent::Ack { seq: t.seq, order_id: t.id }] + e.events,
        }
    }
}

/// What a cancel does.
pub open spec fn step_cancel(
    m: BookModel,
    seq: SeqNo,
    order_id: OrderId,
    trader: TraderId,
) -> Step {
    if !m.has(order_id.0) {
        refused(m, seq, order_id, RejectReason::UnknownOrderId)
    } else if m.find(order_id.0).trader != trader.0 {
        refused(m, seq, order_id, RejectReason::WrongTrader)
    } else {
        Step {
            book: m.removed(order_id.0),
            events: seq![
                OutputEvent::Cancelled {
                    seq,
                    order_id,
                    remaining: Qty(m.find(order_id.0).remaining),
                    reason: CancelReason::User,
                },
            ],
        }
    }
}

/// What a modify does: cancel and new, so it loses time priority even at an
/// unchanged price.
pub open spec fn step_modify(
    m: BookModel,
    seq: SeqNo,
    order_id: OrderId,
    trader: TraderId,
    new_price: Price,
    new_qty: Qty,
) -> Step {
    if !m.has(order_id.0) {
        refused(m, seq, order_id, RejectReason::UnknownOrderId)
    } else if m.find(order_id.0).trader != trader.0 {
        refused(m, seq, order_id, RejectReason::WrongTrader)
    } else if new_qty.0 == 0 {
        refused(m, seq, order_id, RejectReason::ZeroQty)
    } else if m.cfg.level_of(new_price) is None {
        refused(m, seq, order_id, RejectReason::PriceOutOfBounds)
    } else {
        let o = m.find(order_id.0);
        let t = Taker { seq, id: order_id, trader, side: o.side, price: new_price, stp: o.stp };
        let e = enter(m.removed(order_id.0), t, new_qty.0, TimeInForce::Gtc);
        Step {
            book: e.book,
            events: seq![
                OutputEvent::Cancelled {
                    seq,
                    order_id,
                    remaining: Qty(o.remaining),
                    reason: CancelReason::User,
                },
                OutputEvent::Ack { seq, order_id },
            ] + e.events,
        }
    }
}

/// What an instruction does to a book, and what it answers.
pub open spec fn step(m: BookModel, ev: InputEvent) -> Step {
    match ev {
        InputEvent::New { seq, order_id, trader, side, price, qty, tif, stp } => step_new(
            m,
            Taker { seq, id: order_id, trader, side, price, stp },
            qty,
            tif,
        ),
        InputEvent::Cancel { seq, order_id, trader } => step_cancel(m, seq, order_id, trader),
        InputEvent::Modify { seq, order_id, trader, new_price, new_qty } => step_modify(
            m,
            seq,
            order_id,
            trader,
            new_price,
            new_qty,
        ),
    }
}

} // verus!
