//! What each instruction is answered, and what it leaves: when it is accepted,
//! why it is refused, and what the book is afterwards.

use crate::config::BookConfig;
use crate::events::{CancelReason, InputEvent, OutputEvent, RejectReason};
use crate::laws::{lemma_enter_events, lemma_removed_wf};
use crate::ledger::filled;
use crate::matching::law_fill_or_kill_is_all_or_nothing;
use crate::model::{
    best_level, enter, is_best_level, lemma_best_exists, other_than, step, sweep, without,
    BookModel, Taker,
};
use crate::snapshot::SnapOrder;
use crate::types::{OrderId, Price, Qty, SeqNo, Side, TimeInForce, TraderId};
use vstd::prelude::*;

verus! {

/// The instruction that brings a new order.
pub open spec fn new_order(t: Taker, qty: Qty, tif: TimeInForce) -> InputEvent {
    InputEvent::New {
        seq: t.seq,
        order_id: t.id,
        trader: t.trader,
        side: t.side,
        price: t.price,
        qty,
        tif,
        stp: t.stp,
    }
}

/// A price that is that many ticks above the lowest of the grid, for the number
/// of one of its levels; and no further from it than can be computed.
pub open spec fn on_grid(cfg: BookConfig, p: Price) -> bool {
    &&& p.0 - cfg.min_price <= i64::MAX
    &&& exists|i: int|
        0 <= i < cfg.num_levels && p.0 == #[trigger] (cfg.min_price + i * cfg.tick_size)
}

/// The answer is one refusal, for this reason, and the book is as it was.
pub open spec fn refused_for(
    m: BookModel,
    ev: InputEvent,
    id: OrderId,
    reason: RejectReason,
) -> bool {
    &&& step(m, ev).book == m
    &&& step(m, ev).events == seq![OutputEvent::Rejected { seq: ev.seq(), order_id: id, reason }]
}

/// A price has a level exactly on the grid.
proof fn lemma_on_grid(cfg: BookConfig, p: Price)
    requires
        cfg.tick_size >= 1,
    ensures
        on_grid(cfg, p) <==> cfg.level_of(p) is Some,
{
    cfg.lemma_level_of(p);
    if cfg.level_of(p) is Some {
        let i = cfg.level_of(p)->0 as int;
        assert(p.0 == cfg.min_price + i * cfg.tick_size);
    }
    if on_grid(cfg, p) {
        let i = choose|i: int|
            0 <= i < cfg.num_levels && p.0 == #[trigger] (cfg.min_price + i * cfg.tick_size);
        assert(cfg.on_level(p, i));
    }
}

/// When a new order is refused and for what, in this order: it wants nothing,
/// its id is taken, its price is off the grid, the book is full, or it must
/// fill at once and cannot. Any other is acknowledged first of all.
pub proof fn law_new_verdict(m: BookModel, t: Taker, qty: Qty, tif: TimeInForce)
    requires
        m.wf(),
    ensures
        ({
            let ev = new_order(t, qty, tif);
            let as_ioc = step(m, new_order(t, qty, TimeInForce::Ioc));
            if qty.0 == 0 {
                refused_for(m, ev, t.id, RejectReason::ZeroQty)
            } else if m.has(t.id.0) {
                refused_for(m, ev, t.id, RejectReason::DuplicateOrderId)
            } else if !on_grid(m.cfg, t.price) {
                refused_for(m, ev, t.id, RejectReason::PriceOutOfBounds)
            } else if m.live() >= m.cfg.max_live_orders {
                refused_for(m, ev, t.id, RejectReason::ArenaFull)
            } else if tif == TimeInForce::Fok && filled(as_ioc.events, t.id.0) < qty.0 {
                refused_for(m, ev, t.id, RejectReason::FokUnfillable)
            } else {
                &&& step(m, ev).events.len() > 0
                &&& step(m, ev).events[0] == (OutputEvent::Ack { seq: t.seq, order_id: t.id })
                &&& forall|j: int|
                    1 <= j < step(m, ev).events.len() ==> {
                        &&& #[trigger] step(m, ev).events[j] !is Ack
                        &&& step(m, ev).events[j] !is Rejected
                    }
            }
        }),
{
    let ev = new_order(t, qty, tif);
    lemma_on_grid(m.cfg, t.price);
    if qty.0 > 0 && !m.has(t.id.0) && on_grid(m.cfg, t.price) && m.live()
        < m.cfg.max_live_orders {
        law_fill_or_kill_is_all_or_nothing(m, t, qty);
        crate::matching::lemma_ioc_filled_at_most(m, t, qty);
        lemma_enter_events(m, t, qty.0, tif);
        let e = enter(m, t, qty.0, tif).events;
        let r = step(m, ev).events;
        if r[0] is Ack {
            assert forall|j: int| 1 <= j < r.len() implies #[trigger] r[j] !is Ack && r[j]
                !is Rejected by {
                assert(r[j] == e[j - 1]);
            }
        }
    }
}

/// What an acknowledged new order does: it is matched with the other side, and
/// what is left of it then rests, if it is good till cancelled, behind every
/// order of its level, on the terms it came with; is cut off, if it is
/// immediate; and is gone, where a self-trade rule ended it. Nothing else of
/// the book changes.
pub proof fn law_new_outcome(m: BookModel, t: Taker, qty: Qty, tif: TimeInForce)
    requires
        m.wf(),
        step(m, new_order(t, qty, tif)).events[0] is Ack,
    ensures
        ({
            let r = step(m, new_order(t, qty, tif));
            let opp = match t.side {
                Side::Bid => Side::Ask,
                Side::Ask => Side::Bid,
            };
            let w = sweep(t, m.side(opp), qty.0);
            let left = !w.killed && w.remaining > 0;
            let ack = seq![OutputEvent::Ack { seq: t.seq, order_id: t.id }];
            &&& r.book.cfg == m.cfg
            &&& r.book.side(opp) == w.ladder
            &&& r.events == if left && tif == TimeInForce::Ioc {
                ack + w.events + seq![
                    OutputEvent::Cancelled {
                        seq: t.seq,
                        order_id: t.id,
                        remaining: Qty(w.remaining),
                        reason: CancelReason::Ioc,
                    },
                ]
            } else {
                ack + w.events
            }
            &&& left && tif == TimeInForce::Gtc ==> exists|i: int|
                {
                    &&& 0 <= i < m.cfg.num_levels
                    &&& t.price.0 == #[trigger] (m.cfg.min_price + i * m.cfg.tick_size)
                    &&& r.book.side(t.side) == m.side(t.side).update(
                        i,
                        m.side(t.side)[i].push(
                            (SnapOrder {
                                order_id: t.id.0,
                                trader: t.trader.0,
                                side: t.side,
                                price: t.price.0,
                                remaining: w.remaining,
                                original_qty: qty.0,
                                stp: t.stp,
                            }),
                        ),
                    )
                }
            &&& !(left && tif == TimeInForce::Gtc) ==> r.book.side(t.side) == m.side(t.side)
            &&& tif == TimeInForce::Fok ==> !left
        }),
{
    let w = sweep(t, m.side(t.side.opposite()), qty.0);
    lemma_on_grid(m.cfg, t.price);
    m.cfg.lemma_level_of(t.price);
    if tif == TimeInForce::Fok {
        law_fill_or_kill_is_all_or_nothing(m, t, qty);
    }
    let i = m.cfg.level_of(t.price)->0 as int;
    assert(m.cfg.on_level(t.price, i));
    assert(t.price.0 == m.cfg.min_price + i * m.cfg.tick_size);
    let r = step(m, new_order(t, qty, tif));
    let ack = seq![OutputEvent::Ack { seq: t.seq, order_id: t.id }];
    let cut = t.kill(t.id.0, w.remaining, CancelReason::Ioc);
    assert(ack + w.events.push(cut) =~= ack + w.events + seq![cut]);
}

/// What a cancel does. An id that does not rest is unknown, an order of another
/// trader is out of reach; any other order goes, and what it still wanted is
/// reported. All the others stand as before.
pub proof fn law_cancel_verdict(m: BookModel, seq: SeqNo, id: OrderId, trader: TraderId)
    requires
        m.wf(),
    ensures
        ({
            let ev = InputEvent::Cancel { seq, order_id: id, trader };
            let r = step(m, ev);
            if !m.has(id.0) {
                refused_for(m, ev, id, RejectReason::UnknownOrderId)
            } else if m.find(id.0).trader != trader.0 {
                refused_for(m, ev, id, RejectReason::WrongTrader)
            } else {
                &&& r.events == seq![
                    OutputEvent::Cancelled {
                        seq,
                        order_id: id,
                        remaining: Qty(m.find(id.0).remaining),
                        reason: CancelReason::User,
                    },
                ]
                &&& r.book.cfg == m.cfg
                &&& forall|s: Side, i: int|
                    0 <= i < m.side(s).len() ==> #[trigger] r.book.side(s)[i] == m.side(s)[i].filter(
                        |o: SnapOrder| o.order_id != id.0,
                    )
                &&& forall|s: Side| #[trigger] r.book.side(s).len() == m.side(s).len()
            }
        }),
{
    if m.has(id.0) {
        let p = |o: SnapOrder| o.order_id != id.0;
        assert(other_than(id.0) =~= p);
        let n = m.removed(id.0);
        assert forall|s: Side, i: int| 0 <= i < m.side(s).len() implies #[trigger] n.side(s)[i]
            == m.side(s)[i].filter(p) by {
            assert(n.side(s) == without(m.side(s), id.0));
        }
    }
}

/// When a modify is refused and for what, in this order: the id is unknown, the
/// order is another trader's, nothing is wanted, the new price is off the grid.
/// Any other is told as a cancel of what was left and an acknowledgement.
pub proof fn law_modify_verdict(
    m: BookModel,
    seq: SeqNo,
    id: OrderId,
    trader: TraderId,
    new_price: Price,
    new_qty: Qty,
)
    requires
        m.wf(),
    ensures
        ({
            let ev = InputEvent::Modify { seq, order_id: id, trader, new_price, new_qty };
            let r = step(m, ev);
            if !m.has(id.0) {
                refused_for(m, ev, id, RejectReason::UnknownOrderId)
            } else if m.find(id.0).trader != trader.0 {
                refused_for(m, ev, id, RejectReason::WrongTrader)
            } else if new_qty.0 == 0 {
                refused_for(m, ev, id, RejectReason::ZeroQty)
            } else if !on_grid(m.cfg, new_price) {
                refused_for(m, ev, id, RejectReason::PriceOutOfBounds)
            } else {
                let o = m.find(id.0);
                let rest = step(
                    step(m, InputEvent::Cancel { seq, order_id: id, trader }).book,
                    InputEvent::New {
                        seq,
                        order_id: id,
                        trader,
                        side: o.side,
                        price: new_price,
                        qty: new_qty,
                        tif: TimeInForce::Gtc,
                        stp: o.stp,
                    },
                );
                &&& rest.events[0] == (OutputEvent::Ack { seq, order_id: id })
                &&& r.book == rest.book
                &&& r.events == seq![
                    OutputEvent::Cancelled {
                        seq,
                        order_id: id,
                        remaining: Qty(o.remaining),
                        reason: CancelReason::User,
                    },
                ] + rest.events
            }
        }),
{
    lemma_on_grid(m.cfg, new_price);
    if m.has(id.0) && m.find(id.0).trader == trader.0 && new_qty.0 > 0 && on_grid(
        m.cfg,
        new_price,
    ) {
        crate::laws::law_modify_is_cancel_and_new(m, seq, id, trader, new_price, new_qty);
        lemma_removed_wf(m, id.0);
        let o = m.find(id.0);
        let t = Taker { seq, id, trader, side: o.side, price: new_price, stp: o.stp };
        law_new_verdict(m.removed(id.0), t, new_qty, TimeInForce::Gtc);
    }
}

/// The best price of a side is that of one of its orders, and no order of the
/// side has a better one; an empty side has none.
pub proof fn law_best_price(m: BookModel, s: Side)
    requires
        m.wf(),
    ensures
        match m.best_price(s) {
            Some(p) => {
                &&& exists|i: int, k: int|
                    m.at(s, i, k) && (#[trigger] m.order(s, i, k)).price == p.0
                &&& forall|i: int, k: int|
                    m.at(s, i, k) ==> match s {
                        Side::Bid => (#[trigger] m.order(s, i, k)).price <= p.0,
                        Side::Ask => m.order(s, i, k).price >= p.0,
                    }
            },
            None => forall|i: int|
                0 <= i < m.side(s).len() ==> (#[trigger] m.side(s)[i]).len() == 0,
        },
{
    let l = m.side(s);
    if let Some(b) = best_level(s, l) {
        assert(is_best_level(s, l, b));
        assert(m.at(s, b, 0) && m.order(s, b, 0) == l[b][0]);
        assert forall|i: int, k: int| m.at(s, i, k) implies match s {
            Side::Bid => (#[trigger] m.order(s, i, k)).price <= l[b][0].price,
            Side::Ask => m.order(s, i, k).price >= l[b][0].price,
        } by {
            m.cfg.law_grid_monotone(i, b);
            m.cfg.law_grid_monotone(b, i);
        }
    } else {
        assert forall|i: int| 0 <= i < m.side(s).len() implies (#[trigger] m.side(s)[i]).len()
            == 0 by {
            if m.side(s)[i].len() > 0 {
                lemma_best_exists(s, l, i);
            }
        }
    }
}

} // verus!
