//! Conservation: what goes into the book comes out of it, order by order.

use crate::events::{CancelReason, InputEvent, OutputEvent};
use crate::laws::{
    law_fill_or_kill, law_immediate_never_rests, law_run_valid, lemma_enter_events,
    lemma_removed_wf, run,
};
use crate::model::{
    best_level, drop_head, enter, lemma_drop_head, lemma_removed, order_total, step, step_new,
    sweep, BookModel, Ladder, Taker,
};
use crate::snapshot::SnapOrder;
use crate::types::{Qty, SelfTradePrevention, Side, TimeInForce};
use vstd::prelude::*;

verus! {

/// The lots that a queue holds for an order id.
pub open spec fn queue_lots(q: Seq<SnapOrder>, id: u64) -> nat
    decreases q.len(),
{
    if q.len() == 0 {
        0
    } else {
        queue_lots(q.drop_last(), id) + (if q.last().order_id == id {
            q.last().remaining as nat
        } else {
            0
        })
    }
}

/// The lots that a ladder holds for an order id.
pub open spec fn lots(l: Ladder, id: u64) -> nat
    decreases l.len(),
{
    if l.len() == 0 {
        0
    } else {
        lots(l.drop_last(), id) + queue_lots(l.last(), id)
    }
}

/// The lots that rest on a book for an order id.
pub open spec fn resting(m: BookModel, id: u64) -> nat {
    lots(m.bids, id) + lots(m.asks, id)
}

/// The lots that events report as traded for an order id, as taker or maker.
pub open spec fn filled(events: Seq<OutputEvent>, id: u64) -> nat
    decreases events.len(),
{
    if events.len() == 0 {
        0
    } else {
        filled(events.drop_last(), id) + match events.last() {
            OutputEvent::Fill { taker, maker, qty, .. } => (if taker.0 == id {
                qty.0 as nat
            } else {
                0
            }) + (if maker.0 == id {
                qty.0 as nat
            } else {
                0
            }),
            _ => 0,
        }
    }
}

/// The lots that events report as cancelled for an order id.
pub open spec fn cancelled(events: Seq<OutputEvent>, id: u64) -> nat
    decreases events.len(),
{
    if events.len() == 0 {
        0
    } else {
        cancelled(events.drop_last(), id) + match events.last() {
            OutputEvent::Cancelled { order_id, remaining, .. } => if order_id.0 == id {
                remaining.0 as nat
            } else {
                0
            },
            _ => 0,
        }
    }
}

/// The lots that an instruction asks for.
pub open spec fn asked(ev: InputEvent) -> nat {
    match ev {
        InputEvent::New { qty, .. } => qty.0 as nat,
        InputEvent::Modify { new_qty, .. } => new_qty.0 as nat,
        InputEvent::Cancel { .. } => 0,
    }
}

/// The lots submitted for an order id: what the instruction asks for, counted
/// for every acknowledgement among the events.
pub open spec fn submitted(ev: InputEvent, events: Seq<OutputEvent>, id: u64) -> nat
    decreases events.len(),
{
    if events.len() == 0 {
        0
    } else {
        submitted(ev, events.drop_last(), id) + match events.last() {
            OutputEvent::Ack { order_id, .. } => if order_id.0 == id {
                asked(ev)
            } else {
                0
            },
            _ => 0,
        }
    }
}

pub(crate) proof fn lemma_filled_concat(a: Seq<OutputEvent>, b: Seq<OutputEvent>, id: u64)
    ensures
        filled(a + b, id) == filled(a, id) + filled(b, id),
        cancelled(a + b, id) == cancelled(a, id) + cancelled(b, id),
    decreases b.len(),
{
    if b.len() == 0 {
        assert(a + b =~= a);
    } else {
        assert((a + b).drop_last() =~= a + b.drop_last());
        lemma_filled_concat(a, b.drop_last(), id);
    }
}

proof fn lemma_submitted_concat(
    ev: InputEvent,
    a: Seq<OutputEvent>,
    b: Seq<OutputEvent>,
    id: u64,
)
    ensures
        submitted(ev, a + b, id) == submitted(ev, a, id) + submitted(ev, b, id),
    decreases b.len(),
{
    if b.len() == 0 {
        assert(a + b =~= a);
    } else {
        assert((a + b).drop_last() =~= a + b.drop_last());
        lemma_submitted_concat(ev, a, b.drop_last(), id);
    }
}

/// The account of a single event.
pub(crate) proof fn lemma_single(ev: InputEvent, e: OutputEvent, id: u64)
    ensures
        filled(seq![e], id) == (match e {
            OutputEvent::Fill { taker, maker, qty, .. } => (if taker.0 == id {
                qty.0 as nat
            } else {
                0
            }) + (if maker.0 == id {
                qty.0 as nat
            } else {
                0
            }),
            _ => 0,
        }),
        cancelled(seq![e], id) == (match e {
            OutputEvent::Cancelled { order_id, remaining, .. } => if order_id.0 == id {
                remaining.0 as nat
            } else {
                0
            },
            _ => 0,
        }),
        submitted(ev, seq![e], id) == (match e {
            OutputEvent::Ack { order_id, .. } => if order_id.0 == id {
                asked(ev)
            } else {
                0
            },
            _ => 0,
        }),
{
    let one = seq![e];
    assert(one.drop_last() =~= Seq::empty());
    assert(filled(one.drop_last(), id) == 0);
    assert(cancelled(one.drop_last(), id) == 0);
    assert(submitted(ev, one.drop_last(), id) == 0);
}

/// Changing one queue changes the lots by the difference.
proof fn lemma_lots_update(l: Ladder, b: int, q: Seq<SnapOrder>, id: u64)
    requires
        0 <= b < l.len(),
    ensures
        lots(l.update(b, q), id) + queue_lots(l[b], id) == lots(l, id) + queue_lots(q, id),
    decreases l.len(),
{
    if b == l.len() - 1 {
        assert(l.update(b, q).drop_last() =~= l.drop_last());
    } else {
        lemma_lots_update(l.drop_last(), b, q, id);
        assert(l.update(b, q).drop_last() =~= l.drop_last().update(b, q));
    }
}

/// The share of position `k` in the lots of a queue.
proof fn lemma_queue_lots_remove(q: Seq<SnapOrder>, k: int, id: u64)
    requires
        0 <= k < q.len(),
    ensures
        queue_lots(q, id) == queue_lots(q.remove(k), id) + (if q[k].order_id == id {
            q[k].remaining as nat
        } else {
            0
        }),
    decreases q.len(),
{
    if k == q.len() - 1 {
        assert(q.remove(k) =~= q.drop_last());
    } else {
        lemma_queue_lots_remove(q.drop_last(), k, id);
        assert(q.remove(k).drop_last() =~= q.drop_last().remove(k));
        assert(q.remove(k).last() == q.last());
    }
}

/// No lots for an id that a queue does not hold.
proof fn lemma_queue_lots_none(q: Seq<SnapOrder>, id: u64)
    requires
        forall|k: int| 0 <= k < q.len() ==> (#[trigger] q[k]).order_id != id,
    ensures
        queue_lots(q, id) == 0,
    decreases q.len(),
{
    if q.len() > 0 {
        assert forall|k: int| 0 <= k < q.drop_last().len() implies (
        #[trigger] q.drop_last()[k]).order_id != id by {
            assert(q.drop_last()[k] == q[k]);
        }
        lemma_queue_lots_none(q.drop_last(), id);
        assert(q[q.len() - 1].order_id != id);
    }
}

/// No lots for an id that a ladder does not hold.
proof fn lemma_lots_none(l: Ladder, id: u64)
    requires
        forall|i: int, k: int|
            0 <= i < l.len() && 0 <= k < (#[trigger] l[i]).len() ==> (#[trigger] l[i][k]).order_id
                != id,
    ensures
        lots(l, id) == 0,
    decreases l.len(),
{
    if l.len() > 0 {
        let d = l.drop_last();
        assert forall|i: int, k: int| 0 <= i < d.len() && 0 <= k < (#[trigger] d[i]).len() implies (
        #[trigger] d[i][k]).order_id != id by {
            assert(d[i] == l[i]);
            assert(l[i][k].order_id != id);
        }
        lemma_lots_none(d, id);
        let q = l[l.len() - 1];
        assert forall|k: int| 0 <= k < q.len() implies (#[trigger] q[k]).order_id != id by {
            assert(l[l.len() - 1][k].order_id != id);
        }
        lemma_queue_lots_none(q, id);
    }
}

/// No lots for an id that does not rest.
pub proof fn lemma_resting_none(m: BookModel, id: u64)
    requires
        !m.has(id),
    ensures
        resting(m, id) == 0,
{
    assert forall|i: int, k: int|
        0 <= i < m.bids.len() && 0 <= k < (#[trigger] m.bids[i]).len() implies (
    #[trigger] m.bids[i][k]).order_id != id by {
        assert(m.at(Side::Bid, i, k) && m.order(Side::Bid, i, k) == m.bids[i][k]);
    }
    assert forall|i: int, k: int|
        0 <= i < m.asks.len() && 0 <= k < (#[trigger] m.asks[i]).len() implies (
    #[trigger] m.asks[i][k]).order_id != id by {
        assert(m.at(Side::Ask, i, k) && m.order(Side::Ask, i, k) == m.asks[i][k]);
    }
    lemma_lots_none(m.bids, id);
    lemma_lots_none(m.asks, id);
}

/// What removing an order takes off the account of every id.
proof fn lemma_resting_removed(m: BookModel, id: u64, u: u64)
    requires
        m.wf(),
        m.has(id),
    ensures
        resting(m, u) == resting(m.removed(id), u) + (if u == id {
            m.find(id).remaining as nat
        } else {
            0
        }),
{
    let (s, i, k) = choose|s: Side, i: int, k: int|
        #![trigger m.order(s, i, k)]
        m.at(s, i, k) && m.order(s, i, k).order_id == id;
    lemma_removed(m, s, i, k);
    let l = m.side(s);
    lemma_lots_update(l, i, l[i].remove(k), u);
    lemma_queue_lots_remove(l[i], k, u);
}

/// The lots that rest for an id are what its order still wants.
pub proof fn law_resting_is_remaining(m: BookModel, id: u64)
    requires
        m.wf(),
    ensures
        resting(m, id) == (if m.has(id) {
            m.find(id).remaining as nat
        } else {
            0
        }),
{
    if m.has(id) {
        lemma_resting_removed(m, id, id);
        lemma_removed_wf(m, id);
        lemma_resting_none(m.removed(id), id);
    } else {
        lemma_resting_none(m, id);
    }
}

/// Matching conserves: what a maker or the incoming order loses is reported.
pub(crate) proof fn lemma_sweep_conserves(t: Taker, l: Ladder, remaining: u64, u: u64)
    ensures
        ({
            let w = sweep(t, l, remaining);
            lots(l, u) + (if u == t.id.0 {
                remaining as nat
            } else {
                0
            }) == lots(w.ladder, u) + (if u == t.id.0 && !w.killed {
                w.remaining as nat
            } else {
                0
            }) + filled(w.events, u) + cancelled(w.events, u)
        }),
    decreases order_total(l),
{
    let opp = t.side.opposite();
    let w = sweep(t, l, remaining);
    let dummy = InputEvent::Cancel { seq: t.seq, order_id: t.id, trader: t.trader };
    match best_level(opp, l) {
        None => {},
        Some(b) => {
            lemma_drop_head(opp, l, b);
            let d = drop_head(l, b);
            let maker = l[b][0];
            lemma_queue_lots_remove(l[b], 0, u);
            assert(l[b].remove(0) =~= l[b].skip(1));
            lemma_lots_update(l, b, l[b].skip(1), u);
            let resting = t.kill(
                maker.order_id,
                maker.remaining,
                CancelReason::SelfTradePrevention,
            );
            let incoming = t.kill(t.id.0, remaining, CancelReason::SelfTradePrevention);
            lemma_single(dummy, resting, u);
            lemma_single(dummy, incoming, u);
            if remaining == 0 || !t.reaches(maker) {
            } else if t.own(maker) {
                if t.stp == SelfTradePrevention::CancelResting {
                    let v = sweep(t, d, remaining);
                    lemma_sweep_conserves(t, d, remaining, u);
                    lemma_filled_concat(seq![resting], v.events, u);
                } else if t.stp == SelfTradePrevention::CancelAggressor {
                } else {
                    lemma_filled_concat(seq![resting], seq![incoming], u);
                    assert(seq![resting] + seq![incoming] =~= seq![resting, incoming]);
                }
            } else if maker.remaining <= remaining {
                let r = (remaining - maker.remaining) as u64;
                let v = sweep(t, d, r);
                let f = t.fill(maker, maker.remaining);
                lemma_sweep_conserves(t, d, r, u);
                lemma_single(dummy, f, u);
                lemma_filled_concat(seq![f], v.events, u);
            } else {
                let left = SnapOrder { remaining: (maker.remaining - remaining) as u64, ..maker };
                let f = t.fill(maker, remaining);
                lemma_single(dummy, f, u);
                let q = l[b].update(0, left);
                lemma_queue_lots_remove(q, 0, u);
                assert(q.remove(0) =~= l[b].remove(0));
                lemma_lots_update(l, b, q, u);
            }
        },
    }
}

/// The incoming order's own part of an entry is what it asked for.
pub(crate) proof fn lemma_enter_conserves(m: BookModel, t: Taker, qty: u64, tif: TimeInForce, u: u64)
    requires
        m.cfg.tick_size >= 1,
        m.side(t.side).len() == m.cfg.num_levels,
        m.cfg.level_of(t.price) is Some,
    ensures
        ({
            let e = enter(m, t, qty, tif);
            resting(m, u) + (if u == t.id.0 {
                qty as nat
            } else {
                0
            }) == resting(e.book, u) + filled(e.events, u) + cancelled(e.events, u)
        }),
{
    let opp = t.side.opposite();
    let w = sweep(t, m.side(opp), qty);
    let crossed = m.with_side(opp, w.ladder);
    lemma_sweep_conserves(t, m.side(opp), qty, u);
    if w.killed || w.remaining == 0 {
    } else if tif == TimeInForce::Gtc {
        m.cfg.lemma_level_of(t.price);
        let o = SnapOrder {
            order_id: t.id.0,
            trader: t.trader.0,
            side: t.side,
            price: t.price.0,
            remaining: w.remaining,
            original_qty: qty,
            stp: t.stp,
        };
        let i = m.cfg.level_of(t.price)->0 as int;
        let l = crossed.side(t.side);
        assert(m.cfg.on_level(t.price, i));
        lemma_lots_update(l, i, l[i].push(o), u);
        assert(l[i].push(o).drop_last() =~= l[i]);
    } else {
        let ev = t.kill(t.id.0, w.remaining, CancelReason::Ioc);
        let dummy = InputEvent::Cancel { seq: t.seq, order_id: t.id, trader: t.trader };
        lemma_single(dummy, ev, u);
        lemma_filled_concat(w.events, seq![ev], u);
        assert(w.events.push(ev) =~= w.events + seq![ev]);
    }
}

/// No acknowledgement comes out of an entry.
proof fn lemma_enter_no_ack(ev: InputEvent, events: Seq<OutputEvent>, u: u64)
    requires
        forall|j: int| 0 <= j < events.len() ==> #[trigger] events[j] !is Ack,
    ensures
        submitted(ev, events, u) == 0,
    decreases events.len(),
{
    if events.len() > 0 {
        assert forall|j: int| 0 <= j < events.drop_last().len() implies
            #[trigger] events.drop_last()[j] !is Ack by {
            assert(events.drop_last()[j] == events[j]);
        }
        lemma_enter_no_ack(ev, events.drop_last(), u);
        assert(events[events.len() - 1] !is Ack);
    }
}

/// Conservation: for every order id, what rested before an instruction and
/// what it submits is what rests after it, what it fills and what it cancels.
pub proof fn law_conservation(m: BookModel, ev: InputEvent, id: u64)
    requires
        m.wf(),
    ensures
        ({
            let r = step(m, ev);
            resting(m, id) + submitted(ev, r.events, id) == resting(r.book, id) + filled(
                r.events,
                id,
            ) + cancelled(r.events, id)
        }),
{
    let r = step(m, ev);
    match ev {
        InputEvent::New { seq, order_id, trader, side, price, qty, tif, stp } => {
            let t = Taker { seq, id: order_id, trader, side, price, stp };
            let e = enter(m, t, qty.0, tif);
            let ack = OutputEvent::Ack { seq, order_id };
            if r.events.len() == 1 && r.events[0] is Rejected {
                lemma_single(ev, r.events[0], id);
                assert(r.events =~= seq![r.events[0]]);
            } else {
                lemma_enter_conserves(m, t, qty.0, tif, id);
                lemma_enter_events(m, t, qty.0, tif);
                lemma_enter_no_ack(ev, e.events, id);
                lemma_single(ev, ack, id);
                lemma_filled_concat(seq![ack], e.events, id);
                lemma_submitted_concat(ev, seq![ack], e.events, id);
            }
        },
        InputEvent::Cancel { seq, order_id, trader } => {
            lemma_single(ev, r.events[0], id);
            assert(r.events =~= seq![r.events[0]]);
            if m.has(order_id.0) {
                lemma_resting_removed(m, order_id.0, id);
            }
        },
        InputEvent::Modify { seq, order_id, trader, new_price, new_qty } => {
            if r.events.len() == 1 && r.events[0] is Rejected {
                lemma_single(ev, r.events[0], id);
                assert(r.events =~= seq![r.events[0]]);
            } else {
                let o = m.find(order_id.0);
                let t = Taker {
                    seq,
                    id: order_id,
                    trader,
                    side: o.side,
                    price: new_price,
                    stp: o.stp,
                };
                let n = m.removed(order_id.0);
                let e = enter(n, t, new_qty.0, TimeInForce::Gtc);
                let gone = OutputEvent::Cancelled {
                    seq,
                    order_id,
                    remaining: Qty(o.remaining),
                    reason: CancelReason::User,
                };
                let ack = OutputEvent::Ack { seq, order_id };
                lemma_resting_removed(m, order_id.0, id);
                lemma_removed_wf(m, order_id.0);
                lemma_enter_conserves(n, t, new_qty.0, TimeInForce::Gtc, id);
                lemma_enter_events(n, t, new_qty.0, TimeInForce::Gtc);
                lemma_enter_no_ack(ev, e.events, id);
                lemma_single(ev, gone, id);
                lemma_single(ev, ack, id);
                let two = seq![gone] + seq![ack];
                assert(two =~= seq![gone, ack]);
                lemma_filled_concat(seq![gone], seq![ack], id);
                lemma_submitted_concat(ev, seq![gone], seq![ack], id);
                lemma_filled_concat(two, e.events, id);
                lemma_submitted_concat(ev, two, e.events, id);
            }
        },
    }
}

/// The lots submitted for an order id over a run.
pub open spec fn run_submitted(m: BookModel, evs: Seq<InputEvent>, id: u64) -> nat
    decreases evs.len(),
{
    if evs.len() == 0 {
        0
    } else {
        let before = run(m, evs.drop_last()).book;
        run_submitted(m, evs.drop_last(), id) + submitted(
            evs.last(),
            step(before, evs.last()).events,
            id,
        )
    }
}

/// Conservation over a whole session: every lot submitted for an order id was
/// filled, was cancelled, or still rests.
pub proof fn law_session_conservation(m: BookModel, evs: Seq<InputEvent>, id: u64)
    requires
        m.wf(),
    ensures
        resting(m, id) + run_submitted(m, evs, id) == resting(run(m, evs).book, id) + filled(
            run(m, evs).events,
            id,
        ) + cancelled(run(m, evs).events, id),
    decreases evs.len(),
{
    if evs.len() > 0 {
        law_session_conservation(m, evs.drop_last(), id);
        law_run_valid(m, evs.drop_last());
        let before = run(m, evs.drop_last());
        law_conservation(before.book, evs.last(), id);
        lemma_filled_concat(before.events, step(before.book, evs.last()).events, id);
    }
}

/// Matching reports no cancel for an incoming order that it does not end.
pub(crate) proof fn lemma_sweep_spares(t: Taker, l: Ladder, remaining: u64)
    requires
        forall|i: int, k: int|
            0 <= i < l.len() && 0 <= k < (#[trigger] l[i]).len() ==> (#[trigger] l[i][k]).order_id
                != t.id.0,
    ensures
        !sweep(t, l, remaining).killed ==> cancelled(sweep(t, l, remaining).events, t.id.0) == 0,
    decreases order_total(l),
{
    let opp = t.side.opposite();
    let dummy = InputEvent::Cancel { seq: t.seq, order_id: t.id, trader: t.trader };
    if let Some(b) = best_level(opp, l) {
        lemma_drop_head(opp, l, b);
        let d = drop_head(l, b);
        let maker = l[b][0];
        assert(maker.order_id != t.id.0);
        assert forall|i: int, k: int| 0 <= i < d.len() && 0 <= k < (#[trigger] d[i]).len() implies (
        #[trigger] d[i][k]).order_id != t.id.0 by {
            if i == b {
                assert(d[i][k] == l[i][k + 1]);
            } else {
                assert(d[i][k] == l[i][k]);
            }
        }
        if remaining > 0 && t.reaches(maker) {
            if t.own(maker) {
                let e = t.kill(
                    maker.order_id,
                    maker.remaining,
                    CancelReason::SelfTradePrevention,
                );
                lemma_sweep_spares(t, d, remaining);
                lemma_single(dummy, e, t.id.0);
                lemma_filled_concat(seq![e], sweep(t, d, remaining).events, t.id.0);
            } else if maker.remaining <= remaining {
                let r = (remaining - maker.remaining) as u64;
                let e = t.fill(maker, maker.remaining);
                lemma_sweep_spares(t, d, r);
                lemma_single(dummy, e, t.id.0);
                lemma_filled_concat(seq![e], sweep(t, d, r).events, t.id.0);
            } else {
                lemma_single(dummy, t.fill(maker, remaining), t.id.0);
            }
        }
    }
}

/// A fill-or-kill order that is accepted trades exactly what it asked for.
pub proof fn law_fill_or_kill_fills_all(m: BookModel, t: Taker, qty: Qty)
    requires
        m.wf(),
        step_new(m, t, qty, TimeInForce::Fok).events[0] !is Rejected,
    ensures
        filled(step_new(m, t, qty, TimeInForce::Fok).events, t.id.0) == qty.0,
        !step_new(m, t, qty, TimeInForce::Fok).book.has(t.id.0),
{
    let ev = InputEvent::New {
        seq: t.seq,
        order_id: t.id,
        trader: t.trader,
        side: t.side,
        price: t.price,
        qty,
        tif: TimeInForce::Fok,
        stp: t.stp,
    };
    let r = step(m, ev);
    let id = t.id.0;
    let opp = t.side.opposite();
    law_conservation(m, ev, id);
    law_immediate_never_rests(m, t, qty, TimeInForce::Fok, t.seq, t.trader);
    law_fill_or_kill(m, t, qty);
    lemma_resting_none(m, id);
    lemma_resting_none(r.book, id);
    let e = enter(m, t, qty.0, TimeInForce::Fok);
    let ack = OutputEvent::Ack { seq: t.seq, order_id: t.id };
    lemma_enter_events(m, t, qty.0, TimeInForce::Fok);
    lemma_enter_no_ack(ev, e.events, id);
    lemma_single(ev, ack, id);
    lemma_submitted_concat(ev, seq![ack], e.events, id);
    let l = m.side(opp);
    assert forall|i: int, k: int| 0 <= i < l.len() && 0 <= k < (#[trigger] l[i]).len() implies (
    #[trigger] l[i][k]).order_id != id by {
        assert(m.at(opp, i, k) && m.order(opp, i, k) == l[i][k]);
    }
    lemma_sweep_spares(t, l, qty.0);
    lemma_filled_concat(seq![ack], sweep(t, l, qty.0).events, id);
}

} // verus!
