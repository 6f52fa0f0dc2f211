//! The account of every resting order: what it came with is what it still
//! wants and what it has traded since.

use crate::config::BookConfig;
use crate::events::{CancelReason, InputEvent, OutputEvent};
use crate::laws::{
    law_empty_valid, law_run_valid, lemma_enter_events, lemma_enter_valid,
    lemma_removed_wf, lemma_sweep_trims, lemma_wf_positive, positive, run, trimmed,
};
use crate::ledger::{
    cancelled, filled, law_resting_is_remaining, lemma_enter_conserves, lemma_filled_concat,
    lemma_single, lemma_sweep_spares,
};
use crate::model::{
    best_level, drop_head, enter, lemma_drop_head, lemma_removed, order_total, step, sweep,
    BookModel, Ladder, Taker,
};
use crate::types::{SelfTradePrevention, Side, TimeInForce};
use vstd::prelude::*;

verus! {

/// An event acknowledges an order id.
pub open spec fn acks(e: OutputEvent, id: u64) -> bool {
    e matches OutputEvent::Ack { order_id, .. } && order_id.0 == id
}

/// Some event acknowledges an order id.
pub open spec fn acked(events: Seq<OutputEvent>, id: u64) -> bool {
    exists|j: int| 0 <= j < events.len() && acks(#[trigger] events[j], id)
}

/// The lots that events report as traded for an order id since they last
/// acknowledged it.
pub open spec fn filled_since_ack(events: Seq<OutputEvent>, id: u64) -> nat
    decreases events.len(),
{
    if events.len() == 0 || acks(events.last(), id) {
        0
    } else {
        filled_since_ack(events.drop_last(), id) + filled(seq![events.last()], id)
    }
}

/// After the events `h`, every order of the book came with what it still wants
/// and what it has traded since it was acknowledged.
pub open spec fn accounted(m: BookModel, h: Seq<OutputEvent>) -> bool {
    forall|id: u64| #[trigger]
        m.has(id) ==> m.find(id).original_qty == m.find(id).remaining + filled_since_ack(h, id)
}

/// No order wants more than it came with.
pub open spec fn within_original(m: BookModel) -> bool {
    forall|id: u64| #[trigger] m.has(id) ==> m.find(id).remaining <= m.find(id).original_qty
}

/// Later events add their trades, or start the count again.
proof fn lemma_since_ack_concat(a: Seq<OutputEvent>, b: Seq<OutputEvent>, id: u64)
    ensures
        filled_since_ack(a + b, id) == if acked(b, id) {
            filled_since_ack(b, id)
        } else {
            filled_since_ack(a, id) + filled(b, id)
        },
    decreases b.len(),
{
    if b.len() == 0 {
        assert(a + b =~= a);
    } else {
        let c = b.drop_last();
        lemma_since_ack_concat(a, c, id);
        assert((a + b).drop_last() =~= a + c);
        assert((a + b).last() == b.last());
        lemma_filled_concat(c, seq![b.last()], id);
        assert(c + seq![b.last()] =~= b);
        if acks(b.last(), id) {
            assert(acks(b[b.len() - 1], id));
        } else if acked(b, id) {
            let j = choose|j: int| 0 <= j < b.len() && acks(#[trigger] b[j], id);
            assert(acks(c[j], id));
        } else if acked(c, id) {
            let j = choose|j: int| 0 <= j < c.len() && acks(#[trigger] c[j], id);
            assert(acks(b[j], id));
        }
    }
}

/// The order at a place is the one found under its id.
proof fn lemma_found(m: BookModel, s: Side, i: int, k: int)
    requires
        m.wf(),
        m.at(s, i, k),
    ensures
        m.has(m.order(s, i, k).order_id),
        m.find(m.order(s, i, k).order_id) == m.order(s, i, k),
{
}

/// Removing one order changes no other.
proof fn lemma_removed_others(m: BookModel, id: u64, u: u64)
    requires
        m.wf(),
        m.has(id),
        m.removed(id).has(u),
    ensures
        u != id,
        m.has(u),
        m.removed(id).find(u) == m.find(u),
{
    lemma_removed_wf(m, id);
    let (s, i, k) = choose|s: Side, i: int, k: int|
        #![trigger m.order(s, i, k)]
        m.at(s, i, k) && m.order(s, i, k).order_id == id;
    lemma_removed(m, s, i, k);
    let n = m.removed(id);
    let (s2, i2, k2) = choose|s2: Side, i2: int, k2: int|
        #![trigger n.order(s2, i2, k2)]
        n.at(s2, i2, k2) && n.order(s2, i2, k2).order_id == u;
    lemma_found(n, s2, i2, k2);
    let from = if s2 == s && i2 == i && k2 >= k {
        k2 + 1
    } else {
        k2
    };
    assert(m.at(s2, i2, from) && m.order(s2, i2, from) == n.order(s2, i2, k2));
    lemma_found(m, s2, i2, from);
}

/// An order with this id stands on the ladder.
spec fn holds(l: Ladder, id: u64) -> bool {
    exists|i: int, k: int|
        0 <= i < l.len() && 0 <= k < (#[trigger] l[i]).len() && (#[trigger] l[i][k]).order_id == id
}

/// No two orders of the ladder share an id.
spec fn distinct(l: Ladder) -> bool {
    forall|i: int, k: int, i2: int, k2: int|
        0 <= i < l.len() && 0 <= k < (#[trigger] l[i]).len() && 0 <= i2 < l.len() && 0 <= k2 < (
        #[trigger] l[i2]).len() && (#[trigger] l[i][k]).order_id == (
        #[trigger] l[i2][k2]).order_id ==> i == i2 && k == k2
}

proof fn lemma_trimmed_holds(a: Ladder, b: Ladder, id: u64)
    requires
        trimmed(a, b),
        holds(a, id),
    ensures
        holds(b, id),
{
    let (i, k) = choose|i: int, k: int|
        0 <= i < a.len() && 0 <= k < (#[trigger] a[i]).len() && (#[trigger] a[i][k]).order_id == id;
    assert(b[i][k + (b[i].len() - a[i].len())].order_id == id);
}

/// Taking the front order of a level leaves the ids distinct, and takes no
/// other id.
proof fn lemma_drop_head_ids(l: Ladder, b: int, id: u64)
    requires
        distinct(l),
        0 <= b < l.len(),
        l[b].len() > 0,
    ensures
        distinct(drop_head(l, b)),
        holds(drop_head(l, b), id) <==> holds(l, id) && id != l[b][0].order_id,
{
    let d = drop_head(l, b);
    assert forall|i: int, k: int| 0 <= i < d.len() && 0 <= k < (#[trigger] d[i]).len() implies {
        let from = if i == b {
            k + 1
        } else {
            k
        };
        0 <= from < l[i].len() && (#[trigger] d[i][k]) == l[i][from]
    } by {}
    assert(distinct(d)) by {
        assert forall|i: int, k: int, i2: int, k2: int|
            0 <= i < d.len() && 0 <= k < (#[trigger] d[i]).len() && 0 <= i2 < d.len() && 0 <= k2 < (
            #[trigger] d[i2]).len() && (#[trigger] d[i][k]).order_id == (
            #[trigger] d[i2][k2]).order_id implies i == i2 && k == k2 by {
            let f = if i == b {
                k + 1
            } else {
                k
            };
            let f2 = if i2 == b {
                k2 + 1
            } else {
                k2
            };
            assert(l[i][f].order_id == l[i2][f2].order_id);
        }
    }
    if holds(d, id) {
        let (i, k) = choose|i: int, k: int|
            0 <= i < d.len() && 0 <= k < (#[trigger] d[i]).len() && (#[trigger] d[i][k]).order_id
                == id;
        let f = if i == b {
            k + 1
        } else {
            k
        };
        assert(l[i][f].order_id == id);
        if id == l[b][0].order_id {
            assert(l[b][0].order_id == l[i][f].order_id);
        }
    }
    if holds(l, id) && id != l[b][0].order_id {
        let (i, k) = choose|i: int, k: int|
            0 <= i < l.len() && 0 <= k < (#[trigger] l[i]).len() && (#[trigger] l[i][k]).order_id
                == id;
        let f = if i == b {
            k - 1
        } else {
            k
        };
        assert(d[i][f].order_id == id);
    }
}

/// Matching reports no cancel for an order that it leaves standing, nor for
/// one that it cannot meet.
proof fn lemma_sweep_survivor(t: Taker, l: Ladder, remaining: u64, u: u64)
    requires
        positive(l),
        distinct(l),
        u != t.id.0,
        holds(sweep(t, l, remaining).ladder, u) || !holds(l, u),
    ensures
        cancelled(sweep(t, l, remaining).events, u) == 0,
    decreases order_total(l),
{
    let opp = t.side.opposite();
    let dummy = InputEvent::Cancel { seq: t.seq, order_id: t.id, trader: t.trader };
    let w = sweep(t, l, remaining);
    if let Some(b) = best_level(opp, l) {
        lemma_drop_head(opp, l, b);
        let d = drop_head(l, b);
        let maker = l[b][0];
        lemma_drop_head_ids(l, b, u);
        assert(holds(l, maker.order_id));
        assert(positive(d)) by {
            assert forall|i: int, k: int| 0 <= i < d.len() && 0 <= k < (
            #[trigger] d[i]).len() implies (#[trigger] d[i][k]).remaining > 0 by {
                if i == b {
                    assert(d[i][k] == l[i][k + 1]);
                } else {
                    assert(d[i][k] == l[i][k]);
                }
            }
        }
        if remaining > 0 && t.reaches(maker) {
            let resting = t.kill(
                maker.order_id,
                maker.remaining,
                CancelReason::SelfTradePrevention,
            );
            let incoming = t.kill(t.id.0, remaining, CancelReason::SelfTradePrevention);
            lemma_single(dummy, resting, u);
            lemma_single(dummy, incoming, u);
            if t.own(maker) {
                if t.stp == SelfTradePrevention::CancelResting {
                    let v = sweep(t, d, remaining);
                    lemma_sweep_trims(t, d, remaining);
                    if holds(v.ladder, u) {
                        lemma_trimmed_holds(v.ladder, d, u);
                    }
                    lemma_sweep_survivor(t, d, remaining, u);
                    lemma_filled_concat(seq![resting], v.events, u);
                } else if t.stp == SelfTradePrevention::CancelAggressor {
                } else {
                    lemma_filled_concat(seq![resting], seq![incoming], u);
                    assert(seq![resting] + seq![incoming] =~= seq![resting, incoming]);
                }
            } else if maker.remaining <= remaining {
                let r = (remaining - maker.remaining) as u64;
                let f = t.fill(maker, maker.remaining);
                let v = sweep(t, d, r);
                lemma_sweep_trims(t, d, r);
                if holds(v.ladder, u) {
                    lemma_trimmed_holds(v.ladder, d, u);
                }
                lemma_sweep_survivor(t, d, r, u);
                lemma_single(dummy, f, u);
                lemma_filled_concat(seq![f], v.events, u);
            } else {
                lemma_single(dummy, t.fill(maker, remaining), u);
            }
        }
    }
}

/// The ids on one side of a valid book are distinct.
proof fn lemma_side_distinct(m: BookModel, s: Side)
    requires
        m.wf(),
    ensures
        distinct(m.side(s)),
{
    let l = m.side(s);
    assert forall|i: int, k: int, i2: int, k2: int|
        0 <= i < l.len() && 0 <= k < (#[trigger] l[i]).len() && 0 <= i2 < l.len() && 0 <= k2 < (
        #[trigger] l[i2]).len() && (#[trigger] l[i][k]).order_id == (
        #[trigger] l[i2][k2]).order_id implies i == i2 && k == k2 by {
        assert(m.at(s, i, k) && m.order(s, i, k) == l[i][k]);
        assert(m.at(s, i2, k2) && m.order(s, i2, k2) == l[i2][k2]);
    }
}

/// Where an order that rests after an entry stood before it; nowhere, if it is
/// the order that entered.
#[verifier::spinoff_prover]
#[verifier::rlimit(40)]
proof fn lemma_enter_origin(
    m: BookModel,
    t: Taker,
    qty: u64,
    tif: TimeInForce,
    s: Side,
    i: int,
    k: int,
) -> (from: int)
    requires
        m.wf(),
        m.cfg.level_of(t.price) is Some,
        enter(m, t, qty, tif).book.at(s, i, k),
    ensures
        ({
            let w = sweep(t, m.side(t.side.opposite()), qty);
            let o = enter(m, t, qty, tif).book.order(s, i, k);
            if from < 0 {
                &&& s == t.side
                &&& o.order_id == t.id.0
                &&& o.original_qty == qty
                &&& tif == TimeInForce::Gtc
                &&& !w.killed
            } else {
                &&& m.at(s, i, from)
                &&& o.order_id == m.order(s, i, from).order_id
                &&& o.original_qty == m.order(s, i, from).original_qty
                &&& s != t.side ==> holds(w.ladder, o.order_id)
            }
        }),
{
    let opp = t.side.opposite();
    let l = m.side(opp);
    let w = sweep(t, l, qty);
    let e = enter(m, t, qty, tif);
    lemma_wf_positive(m, opp);
    lemma_sweep_trims(t, l, qty);
    m.cfg.lemma_level_of(t.price);
    let rests = !w.killed && w.remaining > 0 && tif == TimeInForce::Gtc;
    let i0 = m.cfg.level_of(t.price)->0 as int;
    if s == opp {
        assert(e.book.side(opp) == w.ladder);
        let from = k + (l[i].len() - w.ladder[i].len());
        assert(w.ladder[i][k].order_id == l[i][from].order_id);
        from
    } else if rests && i == i0 && k == m.side(t.side)[i0].len() {
        -1
    } else {
        k
    }
}

/// Matching reports no cancel for an order of the incoming order's own side.
proof fn lemma_own_side_spared(m: BookModel, t: Taker, qty: u64, i: int, k: int)
    requires
        m.wf(),
        !m.has(t.id.0),
        m.at(t.side, i, k),
    ensures
        cancelled(
            sweep(t, m.side(t.side.opposite()), qty).events,
            m.order(t.side, i, k).order_id,
        ) == 0,
{
    let opp = t.side.opposite();
    let l = m.side(opp);
    let u = m.order(t.side, i, k).order_id;
    lemma_wf_positive(m, opp);
    lemma_side_distinct(m, opp);
    if holds(l, u) {
        let (i2, k2) = choose|i2: int, k2: int|
            0 <= i2 < l.len() && 0 <= k2 < (#[trigger] l[i2]).len() && (
            #[trigger] l[i2][k2]).order_id == u;
        assert(m.at(opp, i2, k2) && m.order(opp, i2, k2) == l[i2][k2]);
    }
    lemma_sweep_survivor(t, l, qty, u);
}

/// Matching reports no cancel for an incoming order that it does not end.
proof fn lemma_newcomer_spared(m: BookModel, t: Taker, qty: u64)
    requires
        !m.has(t.id.0),
        !sweep(t, m.side(t.side.opposite()), qty).killed,
    ensures
        cancelled(sweep(t, m.side(t.side.opposite()), qty).events, t.id.0) == 0,
{
    let opp = t.side.opposite();
    let l = m.side(opp);
    assert forall|i: int, k: int| 0 <= i < l.len() && 0 <= k < (#[trigger] l[i]).len() implies (
    #[trigger] l[i][k]).order_id != t.id.0 by {
        assert(m.at(opp, i, k) && m.order(opp, i, k) == l[i][k]);
    }
    lemma_sweep_spares(t, l, qty);
}

/// What an entry reports as cancelled for another order, its matching did.
proof fn lemma_enter_cancelled(m: BookModel, t: Taker, qty: u64, tif: TimeInForce, u: u64)
    requires
        u != t.id.0 || tif == TimeInForce::Gtc,
    ensures
        cancelled(enter(m, t, qty, tif).events, u) == cancelled(
            sweep(t, m.side(t.side.opposite()), qty).events,
            u,
        ),
{
    let w = sweep(t, m.side(t.side.opposite()), qty);
    let dummy = InputEvent::Cancel { seq: t.seq, order_id: t.id, trader: t.trader };
    let ev = t.kill(t.id.0, w.remaining, CancelReason::Ioc);
    lemma_single(dummy, ev, u);
    lemma_filled_concat(w.events, seq![ev], u);
    assert(w.events.push(ev) =~= w.events + seq![ev]);
}

/// An order that rests after an entry was not cancelled by it, and came with
/// what it came with before, or with what the entry asked for.
proof fn lemma_enter_survivor(m: BookModel, t: Taker, qty: u64, tif: TimeInForce, u: u64)
    requires
        m.wf(),
        !m.has(t.id.0),
        m.cfg.level_of(t.price) is Some,
        enter(m, t, qty, tif).book.wf(),
        enter(m, t, qty, tif).book.has(u),
    ensures
        cancelled(enter(m, t, qty, tif).events, u) == 0,
        u == t.id.0 ==> enter(m, t, qty, tif).book.find(u).original_qty == qty,
        u != t.id.0 ==> m.has(u) && enter(m, t, qty, tif).book.find(u).original_qty == m.find(
            u,
        ).original_qty,
{
    let n = enter(m, t, qty, tif).book;
    let (s, i, k) = choose|s: Side, i: int, k: int|
        #![trigger n.order(s, i, k)]
        n.at(s, i, k) && n.order(s, i, k).order_id == u;
    lemma_found(n, s, i, k);
    let from = lemma_enter_origin(m, t, qty, tif, s, i, k);
    if from < 0 {
        lemma_newcomer_spared(m, t, qty);
    } else {
        lemma_found(m, s, i, from);
        if s == t.side {
            lemma_own_side_spared(m, t, qty, i, from);
        } else {
            lemma_wf_positive(m, s);
            lemma_side_distinct(m, s);
            lemma_sweep_survivor(t, m.side(s), qty, u);
        }
    }
    lemma_enter_cancelled(m, t, qty, tif, u);
}

/// What an entry does to the account of an order that rests after it.
proof fn lemma_enter_account(m: BookModel, t: Taker, qty: u64, tif: TimeInForce, u: u64)
    requires
        m.wf(),
        !m.has(t.id.0),
        m.cfg.level_of(t.price) is Some,
        m.live() < m.cfg.max_live_orders,
        enter(m, t, qty, tif).book.has(u),
    ensures
        ({
            let e = enter(m, t, qty, tif);
            let o = e.book.find(u);
            &&& !acked(e.events, u)
            &&& u == t.id.0 ==> o.original_qty == qty && qty == o.remaining + filled(e.events, u)
            &&& u != t.id.0 ==> {
                &&& m.has(u)
                &&& o.original_qty == m.find(u).original_qty
                &&& m.find(u).remaining == o.remaining + filled(e.events, u)
            }
        }),
{
    lemma_enter_valid(m, t, qty, tif);
    lemma_enter_survivor(m, t, qty, tif, u);
    lemma_enter_conserves(m, t, qty, tif, u);
    lemma_enter_events(m, t, qty, tif);
    law_resting_is_remaining(m, u);
    law_resting_is_remaining(enter(m, t, qty, tif).book, u);
}

/// What one instruction does to the account of an order that rests after it.
/// An order that it did not acknowledge rested before, with the same quantity
/// to begin with, and lost what it traded. One that it did acknowledge came
/// with what it still wants and what it has traded.
#[verifier::spinoff_prover]
#[verifier::rlimit(40)]
pub proof fn law_step_account(m: BookModel, ev: InputEvent, id: u64)
    requires
        m.wf(),
        step(m, ev).book.has(id),
    ensures
        ({
            let r = step(m, ev);
            let o = r.book.find(id);
            if acked(r.events, id) {
                o.original_qty == o.remaining + filled_since_ack(r.events, id)
            } else {
                &&& m.has(id)
                &&& o.original_qty == m.find(id).original_qty
                &&& m.find(id).remaining == o.remaining + filled(r.events, id)
            }
        }),
{
    let r = step(m, ev);
    if r.events.len() == 1 && r.events[0] !is Ack {
        // Refused or cancelled: one event, and it is no trade.
        lemma_single(ev, r.events[0], id);
        assert(r.events =~= seq![r.events[0]]);
    }
    match ev {
        InputEvent::New { seq, order_id, trader, side, price, qty, tif, stp } => {
            let t = Taker { seq, id: order_id, trader, side, price, stp };
            if r.events[0] is Ack {
                let e = enter(m, t, qty.0, tif);
                let ack = OutputEvent::Ack { seq, order_id };
                lemma_enter_account(m, t, qty.0, tif, id);
                lemma_acked_then(seq![ack], e.events, id);
                lemma_single(ev, ack, id);
            }
        },
        InputEvent::Cancel { seq, order_id, trader } => {
            if r.events[0] is Cancelled {
                lemma_removed_others(m, order_id.0, id);
            }
        },
        InputEvent::Modify { seq, order_id, trader, new_price, new_qty } => {
            if r.events[0] is Cancelled {
                let o = m.find(order_id.0);
                let t = Taker { seq, id: order_id, trader, side: o.side, price: new_price, stp: o.stp };
                let n = m.removed(order_id.0);
                let e = enter(n, t, new_qty.0, TimeInForce::Gtc);
                let gone = r.events[0];
                let ack = OutputEvent::Ack { seq, order_id };
                lemma_removed_wf(m, order_id.0);
                lemma_enter_account(n, t, new_qty.0, TimeInForce::Gtc, id);
                if id != order_id.0 {
                    lemma_removed_others(m, order_id.0, id);
                }
                lemma_acked_then(seq![gone, ack], e.events, id);
                lemma_single(ev, ack, id);
                lemma_single(ev, gone, id);
                lemma_filled_concat(seq![gone], seq![ack], id);
                assert(seq![gone] + seq![ack] =~= seq![gone, ack]);
            }
        },
    }
}

/// The account after an acknowledgement that stands last, and events that
/// acknowledge nothing.
proof fn lemma_acked_then(first: Seq<OutputEvent>, rest: Seq<OutputEvent>, id: u64)
    requires
        first.len() > 0,
        !acked(rest, id),
        forall|j: int| 0 <= j < first.len() - 1 ==> #[trigger] first[j] !is Ack,
    ensures
        acked(first + rest, id) <==> acks(first.last(), id),
        acks(first.last(), id) ==> filled_since_ack(first + rest, id) == filled(rest, id),
        filled(first + rest, id) == filled(first, id) + filled(rest, id),
{
    let all = first + rest;
    lemma_filled_concat(first, rest, id);
    lemma_since_ack_concat(first, rest, id);
    if acks(first.last(), id) {
        assert(acks(all[first.len() - 1], id));
    }
    if acked(all, id) {
        let j = choose|j: int| 0 <= j < all.len() && acks(#[trigger] all[j], id);
        if j < first.len() {
            assert(first[j] == all[j]);
        } else {
            assert(rest[j - first.len()] == all[j]);
        }
    }
}

/// Every instruction keeps the accounts: where they held after the events so
/// far, they hold after those of the instruction too.
pub proof fn law_accounts_kept(m: BookModel, h: Seq<OutputEvent>, ev: InputEvent)
    requires
        m.wf(),
        accounted(m, h),
    ensures
        accounted(step(m, ev).book, h + step(m, ev).events),
{
    let r = step(m, ev);
    assert forall|id: u64| #[trigger] r.book.has(id) implies r.book.find(id).original_qty
        == r.book.find(id).remaining + filled_since_ack(h + r.events, id) by {
        law_step_account(m, ev, id);
        lemma_since_ack_concat(h, r.events, id);
        assert(!acked(r.events, id) ==> m.has(id));
    }
}

/// Every instruction keeps orders within what they came with.
pub proof fn law_within_original_kept(m: BookModel, ev: InputEvent)
    requires
        m.wf(),
        within_original(m),
    ensures
        within_original(step(m, ev).book),
{
    let r = step(m, ev);
    assert forall|id: u64| #[trigger] r.book.has(id) implies r.book.find(id).remaining
        <= r.book.find(id).original_qty by {
        law_step_account(m, ev, id);
        assert(!acked(r.events, id) ==> m.has(id));
    }
}

/// A whole run keeps the accounts.
pub proof fn law_run_accounts_kept(m: BookModel, h: Seq<OutputEvent>, evs: Seq<InputEvent>)
    requires
        m.wf(),
        accounted(m, h),
    ensures
        accounted(run(m, evs).book, h + run(m, evs).events),
    decreases evs.len(),
{
    if evs.len() == 0 {
        assert(h + run(m, evs).events =~= h);
    } else {
        let before = run(m, evs.drop_last());
        law_run_accounts_kept(m, h, evs.drop_last());
        law_run_valid(m, evs.drop_last());
        law_accounts_kept(before.book, h + before.events, evs.last());
        assert(h + run(m, evs).events =~= (h + before.events) + step(
            before.book,
            evs.last(),
        ).events);
    }
}

/// On every book that a session reaches from an empty one, every order came
/// with what it still wants and what it has traded since it was acknowledged;
/// so it wants no more than it came with.
pub proof fn law_original_is_remaining_and_filled(cfg: BookConfig, evs: Seq<InputEvent>)
    requires
        cfg.wf(),
    ensures
        accounted(run(BookModel::empty(cfg), evs).book, run(BookModel::empty(cfg), evs).events),
        within_original(run(BookModel::empty(cfg), evs).book),
{
    let m = BookModel::empty(cfg);
    let r = run(m, evs);
    law_empty_valid(cfg);
    law_run_accounts_kept(m, Seq::empty(), evs);
    assert(Seq::<OutputEvent>::empty() + r.events =~= r.events);
}

} // verus!
