//! What every instruction keeps, and what no instruction does.

use crate::buffer::clip;
use crate::config::BookConfig;
use crate::events::{CancelReason, InputEvent, OutputEvent, RejectReason};
use crate::model::{
    available, best_level, drop_head, enter, is_best_level, lemma_best_exists, lemma_drop_head,
    lemma_removed, lemma_total_empty, lemma_total_part, lemma_total_update, order_total, refused,
    step, step_cancel, step_new, sweep, BookModel, Ladder, Step, Sweep, Taker,
};
use crate::priority::{flat, lemma_flat_head, lemma_flat_none};
use crate::hash::book_hash;
use crate::snapshot::{all_orders, law_snapshot_round_trip, restored, SnapOrder};
use crate::types::{OrderId, Price, Qty, SelfTradePrevention, SeqNo, Side, TimeInForce, TraderId};
use vstd::prelude::*;

verus! {

/// `a` is `b` with orders taken off its front, and perhaps quantity off the
/// orders that are left.
pub open spec fn front_trimmed(a: Seq<SnapOrder>, b: Seq<SnapOrder>) -> bool {
    &&& a.len() <= b.len()
    &&& forall|k: int|
        0 <= k < a.len() ==> {
            let o = b[k + (b.len() - a.len())];
            &&& (#[trigger] a[k]) == SnapOrder { remaining: a[k].remaining, ..o }
            &&& 0 < a[k].remaining <= o.remaining
        }
}

/// `a` is `b` with orders taken off the fronts of its queues.
pub open spec fn trimmed(a: Ladder, b: Ladder) -> bool {
    &&& a.len() == b.len()
    &&& forall|i: int| 0 <= i < a.len() ==> front_trimmed(#[trigger] a[i], b[i])
}

/// Every order wants something.
pub open spec fn positive(l: Ladder) -> bool {
    forall|i: int, k: int|
        0 <= i < l.len() && 0 <= k < (#[trigger] l[i]).len() ==> (#[trigger] l[i][k]).remaining > 0
}

proof fn lemma_trimmed_self(l: Ladder)
    requires
        positive(l),
    ensures
        trimmed(l, l),
{
}

proof fn lemma_trimmed_chain(a: Ladder, b: Ladder, c: Ladder)
    requires
        trimmed(a, b),
        trimmed(b, c),
    ensures
        trimmed(a, c),
{
    assert forall|i: int| 0 <= i < a.len() implies front_trimmed(#[trigger] a[i], c[i]) by {
        assert(front_trimmed(a[i], b[i]));
        assert(front_trimmed(b[i], c[i]));
        let d = b[i].len() - a[i].len();
        assert forall|k: int| 0 <= k < a[i].len() implies {
            let o = c[i][k + (c[i].len() - a[i].len())];
            &&& (#[trigger] a[i][k]) == SnapOrder { remaining: a[i][k].remaining, ..o }
            &&& 0 < a[i][k].remaining <= o.remaining
        } by {
            let y = b[i][k + d];
            assert(k + d + (c[i].len() - b[i].len()) == k + (c[i].len() - a[i].len()));
        }
    }
}

proof fn lemma_drop_head_trims(l: Ladder, b: int)
    requires
        positive(l),
        0 <= b < l.len(),
        l[b].len() > 0,
    ensures
        trimmed(drop_head(l, b), l),
        positive(drop_head(l, b)),
{
    let d = drop_head(l, b);
    assert forall|i: int| 0 <= i < d.len() implies front_trimmed(#[trigger] d[i], l[i]) by {
        assert forall|k: int| 0 <= k < d[i].len() implies {
            let o = l[i][k + (l[i].len() - d[i].len())];
            &&& (#[trigger] d[i][k]) == o
            &&& o.remaining > 0
        } by {}
    }
    assert forall|i: int, k: int| 0 <= i < d.len() && 0 <= k < (#[trigger] d[i]).len() implies (
    #[trigger] d[i][k]).remaining > 0 by {
        assert(front_trimmed(d[i], l[i]));
    }
}

proof fn lemma_reduce_trims(l: Ladder, b: int, left: SnapOrder)
    requires
        positive(l),
        0 <= b < l.len(),
        l[b].len() > 0,
        left == (SnapOrder { remaining: left.remaining, ..l[b][0] }),
        0 < left.remaining <= l[b][0].remaining,
    ensures
        trimmed(l.update(b, l[b].update(0, left)), l),
{
    let u = l.update(b, l[b].update(0, left));
    assert forall|i: int| 0 <= i < u.len() implies front_trimmed(#[trigger] u[i], l[i]) by {
        assert forall|k: int| 0 <= k < u[i].len() implies {
            let o = l[i][k + (l[i].len() - u[i].len())];
            &&& (#[trigger] u[i][k]) == SnapOrder { remaining: u[i][k].remaining, ..o }
            &&& 0 < u[i][k].remaining <= o.remaining
        } by {
            assert(l[i][k].remaining > 0);
        }
    }
}

/// Matching only takes orders off the fronts of the queues, and quantity off
/// the last one it meets.
pub proof fn lemma_sweep_trims(t: Taker, l: Ladder, remaining: u64)
    requires
        positive(l),
    ensures
        trimmed(sweep(t, l, remaining).ladder, l),
        sweep(t, l, remaining).remaining <= remaining,
    decreases order_total(l),
{
    let opp = t.side.opposite();
    let w = sweep(t, l, remaining);
    match best_level(opp, l) {
        None => {
            lemma_trimmed_self(l);
        },
        Some(b) => {
            lemma_drop_head(opp, l, b);
            let d = drop_head(l, b);
            let maker = l[b][0];
            lemma_drop_head_trims(l, b);
            if remaining == 0 || !t.reaches(maker) {
                lemma_trimmed_self(l);
            } else if t.own(maker) {
                if t.stp == SelfTradePrevention::CancelResting {
                    lemma_sweep_trims(t, d, remaining);
                    lemma_trimmed_chain(w.ladder, d, l);
                } else {
                    lemma_trimmed_self(l);
                }
            } else if maker.remaining <= remaining {
                let r = (remaining - maker.remaining) as u64;
                lemma_sweep_trims(t, d, r);
                lemma_trimmed_chain(w.ladder, d, l);
            } else {
                let left = SnapOrder { remaining: (maker.remaining - remaining) as u64, ..maker };
                lemma_reduce_trims(l, b, left);
            }
        },
    }
}

/// A valid book has positive quantities on both sides.
pub proof fn lemma_wf_positive(m: BookModel, s: Side)
    requires
        m.wf(),
    ensures
        positive(m.side(s)),
{
    let l = m.side(s);
    assert forall|i: int, k: int| 0 <= i < l.len() && 0 <= k < (#[trigger] l[i]).len() implies (
    #[trigger] l[i][k]).remaining > 0 by {
        assert(m.at(s, i, k) && m.order(s, i, k) == l[i][k]);
    }
}

/// Taking orders off the fronts of a side leaves a valid book.
pub proof fn lemma_trimmed_wf(m: BookModel, s: Side, l: Ladder)
    requires
        m.wf(),
        trimmed(l, m.side(s)),
    ensures
        m.with_side(s, l).wf(),
        m.with_side(s, l).live() <= m.live(),
        forall|id: u64| #[trigger] m.with_side(s, l).has(id) ==> m.has(id),
        m.uncrossed() ==> m.with_side(s, l).uncrossed(),
{
    let n = m.with_side(s, l);
    let old = m.side(s);
    assert forall|i: int| 0 <= i < l.len() implies (#[trigger] l[i]).len() <= old[i].len() by {
        assert(front_trimmed(l[i], old[i]));
    }
    lemma_total_part(l, old);
    assert forall|s2: Side, i: int, k: int| #![trigger n.order(s2, i, k)] n.at(s2, i, k) implies ({
        let d = if s2 == s { old[i].len() - l[i].len() } else { 0 };
        &&& m.at(s2, i, k + d)
        &&& n.order(s2, i, k) == SnapOrder {
            remaining: n.order(s2, i, k).remaining,
            ..m.order(s2, i, k + d)
        }
        &&& n.order(s2, i, k).remaining > 0
    }) by {
        if s2 == s {
            assert(front_trimmed(l[i], old[i]));
            let d = old[i].len() - l[i].len();
            assert(m.order(s2, i, k + d) == old[i][k + d]);
            assert(n.order(s2, i, k) == l[i][k]);
        } else {
            assert(n.order(s2, i, k) == m.order(s2, i, k));
        }
    }
    assert forall|s2: Side, i: int, k: int| #![trigger n.order(s2, i, k)] n.at(s2, i, k) implies {
        let o = n.order(s2, i, k);
        o.side == s2 && n.cfg.on_level(Price(o.price), i) && o.remaining > 0
    } by {
        let d = if s2 == s { old[i].len() - l[i].len() } else { 0 };
        let o = m.order(s2, i, k + d);
        assert(m.at(s2, i, k + d));
    }
    assert forall|s2: Side, i: int, k: int, s3: Side, i3: int, k3: int|
        #![trigger n.order(s2, i, k), n.order(s3, i3, k3)]
        n.at(s2, i, k) && n.at(s3, i3, k3) && n.order(s2, i, k).order_id == n.order(
            s3,
            i3,
            k3,
        ).order_id implies s2 == s3 && i == i3 && k == k3 by {
        let d = if s2 == s { old[i].len() - l[i].len() } else { 0 };
        let d3 = if s3 == s { old[i3].len() - l[i3].len() } else { 0 };
        let o = m.order(s2, i, k + d);
        let o3 = m.order(s3, i3, k3 + d3);
    }
    assert forall|id: u64| #[trigger] n.has(id) implies m.has(id) by {
        let (s2, i, k) = choose|s2: Side, i: int, k: int|
            #![trigger n.order(s2, i, k)]
            n.at(s2, i, k) && n.order(s2, i, k).order_id == id;
        let d = if s2 == s { old[i].len() - l[i].len() } else { 0 };
        assert(m.order(s2, i, k + d).order_id == id);
    }
    if m.uncrossed() {
        assert forall|i: int, j: int|
            0 <= i < n.bids.len() && 0 <= j < n.asks.len() && (#[trigger] n.bids[i]).len() > 0 && (
            #[trigger] n.asks[j]).len() > 0 implies i < j by {
            assert(m.bids[i].len() > 0);
            assert(m.asks[j].len() > 0);
        }
    }
}

/// Resting an order that fits leaves a valid book.
pub proof fn lemma_rested_wf(m: BookModel, o: SnapOrder, i: int)
    requires
        m.wf(),
        m.cfg.on_level(Price(o.price), i),
        o.remaining > 0,
        !m.has(o.order_id),
        m.live() < m.cfg.max_live_orders,
    ensures
        m.rested(o).wf(),
        m.rested(o) == m.with_side(
            o.side,
            m.side(o.side).update(i, m.side(o.side)[i].push(o)),
        ),
        m.rested(o).live() == m.live() + 1,
        forall|id: u64| #[trigger] m.rested(o).has(id) <==> id == o.order_id || m.has(id),
{
    m.cfg.lemma_level_of(Price(o.price));
    let s = o.side;
    let l = m.side(s);
    let n = m.rested(o);
    assert(m.cfg.level_of(Price(o.price)) == Some(i as u32));
    lemma_total_update(l, i, l[i].push(o));
    assert forall|s2: Side, j: int, k: int| #![trigger n.order(s2, j, k)] n.at(s2, j, k) implies if s2
        == s && j == i && k == l[i].len() {
        n.order(s2, j, k) == o
    } else {
        m.at(s2, j, k) && n.order(s2, j, k) == m.order(s2, j, k)
    } by {}
    assert forall|s2: Side, j: int, k: int, s3: Side, j3: int, k3: int|
        #![trigger n.order(s2, j, k), n.order(s3, j3, k3)]
        n.at(s2, j, k) && n.at(s3, j3, k3) && n.order(s2, j, k).order_id == n.order(
            s3,
            j3,
            k3,
        ).order_id implies s2 == s3 && j == j3 && k == k3 by {
        if s2 == s && j == i && k == l[i].len() {
            if !(s3 == s && j3 == i && k3 == l[i].len()) {
                assert(m.order(s3, j3, k3).order_id == o.order_id);
            }
        } else if s3 == s && j3 == i && k3 == l[i].len() {
            assert(m.order(s2, j, k).order_id == o.order_id);
        } else {
            assert(m.order(s2, j, k) == n.order(s2, j, k));
            assert(m.order(s3, j3, k3) == n.order(s3, j3, k3));
        }
    }
    assert forall|s2: Side, j: int, k: int| #![trigger n.order(s2, j, k)] n.at(s2, j, k) implies {
        let x = n.order(s2, j, k);
        x.side == s2 && n.cfg.on_level(Price(x.price), j) && x.remaining > 0
    } by {
        let x = m.order(s2, j, k);
    }
    assert forall|id: u64| #[trigger] n.has(id) <==> id == o.order_id || m.has(id) by {
        if n.has(id) {
            let (s2, j, k) = choose|s2: Side, j: int, k: int|
                #![trigger n.order(s2, j, k)]
                n.at(s2, j, k) && n.order(s2, j, k).order_id == id;
            let x = m.order(s2, j, k);
        }
        if m.has(id) {
            let (s2, j, k) = choose|s2: Side, j: int, k: int|
                #![trigger m.order(s2, j, k)]
                m.at(s2, j, k) && m.order(s2, j, k).order_id == id;
            assert(n.at(s2, j, k) && n.order(s2, j, k) == m.order(s2, j, k));
        }
        if id == o.order_id {
            assert(n.at(s, i, l[i].len() as int) && n.order(s, i, l[i].len() as int) == o);
        }
    }
}

/// Removing an order leaves a valid book without that id.
pub proof fn lemma_removed_wf(m: BookModel, id: u64)
    requires
        m.wf(),
        m.has(id),
    ensures
        m.removed(id).wf(),
        m.removed(id).live() == m.live() - 1,
        !m.removed(id).has(id),
        m.uncrossed() ==> m.removed(id).uncrossed(),
        m.find(id).order_id == id,
        forall|other: u64| other != id ==> (#[trigger] m.removed(id).has(other) <==> m.has(other)),
{
    let (s, i, k) = choose|s: Side, i: int, k: int|
        #![trigger m.order(s, i, k)]
        m.at(s, i, k) && m.order(s, i, k).order_id == id;
    lemma_removed(m, s, i, k);
    let l = m.side(s);
    let n = m.removed(id);
    lemma_total_update(l, i, l[i].remove(k));
    assert forall|s2: Side, j: int, h: int| #![trigger n.order(s2, j, h)] n.at(s2, j, h) implies ({
        let d = if s2 == s && j == i && h >= k { 1int } else { 0 };
        &&& m.at(s2, j, h + d)
        &&& n.order(s2, j, h) == m.order(s2, j, h + d)
        &&& !(s2 == s && j == i && h + d == k)
    }) by {}
    assert forall|s2: Side, j: int, h: int, s3: Side, j3: int, h3: int|
        #![trigger n.order(s2, j, h), n.order(s3, j3, h3)]
        n.at(s2, j, h) && n.at(s3, j3, h3) && n.order(s2, j, h).order_id == n.order(
            s3,
            j3,
            h3,
        ).order_id implies s2 == s3 && j == j3 && h == h3 by {
        let d = if s2 == s && j == i && h >= k { 1int } else { 0 };
        let d3 = if s3 == s && j3 == i && h3 >= k { 1int } else { 0 };
        let x = m.order(s2, j, h + d);
        let x3 = m.order(s3, j3, h3 + d3);
    }
    assert forall|s2: Side, j: int, h: int| #![trigger n.order(s2, j, h)] n.at(s2, j, h) implies {
        let x = n.order(s2, j, h);
        x.side == s2 && n.cfg.on_level(Price(x.price), j) && x.remaining > 0 && x.order_id != id
    } by {
        let d = if s2 == s && j == i && h >= k { 1int } else { 0 };
        let x = m.order(s2, j, h + d);
        assert(m.order(s, i, k).order_id == id);
    }
    if m.uncrossed() {
        assert forall|a: int, b: int|
            0 <= a < n.bids.len() && 0 <= b < n.asks.len() && (#[trigger] n.bids[a]).len() > 0 && (
            #[trigger] n.asks[b]).len() > 0 implies a < b by {
            assert(m.bids[a].len() > 0);
            assert(m.asks[b].len() > 0);
        }
    }
    assert forall|other: u64| other != id implies (#[trigger] n.has(other) <==> m.has(other)) by {
        if n.has(other) {
            let (s2, j, h) = choose|s2: Side, j: int, h: int|
                #![trigger n.order(s2, j, h)]
                n.at(s2, j, h) && n.order(s2, j, h).order_id == other;
            let d = if s2 == s && j == i && h >= k { 1int } else { 0 };
            let x = m.order(s2, j, h + d);
        }
        if m.has(other) {
            let (s2, j, h) = choose|s2: Side, j: int, h: int|
                #![trigger m.order(s2, j, h)]
                m.at(s2, j, h) && m.order(s2, j, h).order_id == other;
            let h2 = if s2 == s && j == i && h > k { h - 1 } else { h };
            assert(n.at(s2, j, h2) && n.order(s2, j, h2) == m.order(s2, j, h));
        }
    }
}

/// An order that has met the other side and still wants something is no
/// longer reached by anybody there.
pub proof fn lemma_sweep_exhausts(t: Taker, l: Ladder, remaining: u64)
    ensures
        ({
            let w = sweep(t, l, remaining);
            !w.killed && w.remaining > 0 ==> match best_level(t.side.opposite(), w.ladder) {
                None => true,
                Some(b) => !t.reaches(w.ladder[b][0]),
            }
        }),
    decreases order_total(l),
{
    let opp = t.side.opposite();
    if let Some(b) = best_level(opp, l) {
        lemma_drop_head(opp, l, b);
        let d = drop_head(l, b);
        lemma_sweep_exhausts(t, d, remaining);
        if l[b][0].remaining <= remaining {
            lemma_sweep_exhausts(t, d, (remaining - l[b][0].remaining) as u64);
        }
    }
}

/// Every instruction leads from one valid book to another.
pub proof fn law_step_valid(m: BookModel, ev: InputEvent)
    requires
        m.wf(),
    ensures
        step(m, ev).book.wf(),
        step(m, ev).book.cfg == m.cfg,
{
    match ev {
        InputEvent::New { seq, order_id, trader, side, price, qty, tif, stp } => {
            let t = Taker { seq, id: order_id, trader, side, price, stp };
            if qty.0 > 0 && !m.has(order_id.0) && m.cfg.level_of(price) is Some && m.live()
                < m.cfg.max_live_orders {
                lemma_enter_valid(m, t, qty.0, tif);
            }
        },
        InputEvent::Cancel { seq, order_id, trader } => {
            if m.has(order_id.0) {
                lemma_removed_wf(m, order_id.0);
            }
        },
        InputEvent::Modify { seq, order_id, trader, new_price, new_qty } => {
            if m.has(order_id.0) && m.cfg.level_of(new_price) is Some {
                lemma_removed_wf(m, order_id.0);
                let o = m.find(order_id.0);
                let t = Taker { seq, id: order_id, trader, side: o.side, price: new_price, stp: o.stp };
                lemma_enter_valid(m.removed(order_id.0), t, new_qty.0, TimeInForce::Gtc);
            }
        },
    }
}

/// An accepted order leads to a valid book, uncrossed where it was.
pub(crate) proof fn lemma_enter_valid(m: BookModel, t: Taker, qty: u64, tif: TimeInForce)
    requires
        m.wf(),
        !m.has(t.id.0),
        m.cfg.level_of(t.price) is Some,
        m.live() < m.cfg.max_live_orders,
    ensures
        enter(m, t, qty, tif).book.wf(),
        enter(m, t, qty, tif).book.cfg == m.cfg,
        m.uncrossed() ==> enter(m, t, qty, tif).book.uncrossed(),
        tif != TimeInForce::Gtc ==> !enter(m, t, qty, tif).book.has(t.id.0),
        forall|id: u64| #[trigger]
            enter(m, t, qty, tif).book.has(id) ==> id == t.id.0 || m.has(id),
{
    let opp = t.side.opposite();
    let w = sweep(t, m.side(opp), qty);
    lemma_wf_positive(m, opp);
    lemma_sweep_trims(t, m.side(opp), qty);
    lemma_trimmed_wf(m, opp, w.ladder);
    let crossed = m.with_side(opp, w.ladder);
    if !w.killed && w.remaining > 0 && tif == TimeInForce::Gtc {
        let o = SnapOrder {
            order_id: t.id.0,
            trader: t.trader.0,
            side: t.side,
            price: t.price.0,
            remaining: w.remaining,
            original_qty: qty,
            stp: t.stp,
        };
        m.cfg.lemma_level_of(t.price);
        let i = m.cfg.level_of(t.price)->0 as int;
        lemma_rested_wf(crossed, o, i);
        let n = crossed.rested(o);
        assert(n == enter(m, t, qty, tif).book);
        if m.uncrossed() {
            lemma_sweep_exhausts(t, m.side(opp), qty);
            assert forall|a: int, b: int|
                0 <= a < n.bids.len() && 0 <= b < n.asks.len() && (#[trigger] n.bids[a]).len() > 0
                    && (#[trigger] n.asks[b]).len() > 0 implies a < b by {
                // The new order stands at level `i`; the best of the other
                // side is out of its reach.
                let mine = if t.side == Side::Bid { a } else { b };
                let theirs = if t.side == Side::Bid { b } else { a };
                assert(crossed.side(opp)[theirs].len() > 0);
                if mine == i {
                    lemma_best_exists(opp, w.ladder, theirs);
                    let best = best_level(opp, w.ladder)->0;
                    assert(is_best_level(opp, w.ladder, best));
                    assert(w.ladder[theirs].len() > 0);
                    assert(crossed.at(opp, best, 0) && crossed.order(opp, best, 0)
                        == w.ladder[best][0]);
                    m.cfg.law_grid_monotone(best, i);
                    m.cfg.law_grid_monotone(i, best);
                } else {
                    assert(crossed.side(t.side)[mine].len() > 0);
                    assert(crossed.uncrossed());
                    assert(crossed.bids[a].len() > 0 && crossed.asks[b].len() > 0);
                }
            }
        }
    }
}

/// The book never crosses: where no bid reached an ask before an instruction,
/// none does after it.
pub proof fn law_never_crosses(m: BookModel, ev: InputEvent)
    requires
        m.wf(),
        m.uncrossed(),
    ensures
        step(m, ev).book.uncrossed(),
{
    match ev {
        InputEvent::New { seq, order_id, trader, side, price, qty, tif, stp } => {
            let t = Taker { seq, id: order_id, trader, side, price, stp };
            if qty.0 > 0 && !m.has(order_id.0) && m.cfg.level_of(price) is Some && m.live()
                < m.cfg.max_live_orders {
                lemma_enter_valid(m, t, qty.0, tif);
            }
        },
        InputEvent::Cancel { seq, order_id, trader } => {
            if m.has(order_id.0) {
                lemma_removed_wf(m, order_id.0);
            }
        },
        InputEvent::Modify { seq, order_id, trader, new_price, new_qty } => {
            if m.has(order_id.0) && m.cfg.level_of(new_price) is Some {
                lemma_removed_wf(m, order_id.0);
                let o = m.find(order_id.0);
                let t = Taker { seq, id: order_id, trader, side: o.side, price: new_price, stp: o.stp };
                lemma_enter_valid(m.removed(order_id.0), t, new_qty.0, TimeInForce::Gtc);
            }
        },
    }
}

/// On a valid book that is not crossed, the best bid is below the best ask.
pub proof fn law_uncrossed_prices(m: BookModel)
    requires
        m.wf(),
        m.uncrossed(),
    ensures
        match (m.best_price(Side::Bid), m.best_price(Side::Ask)) {
            (Some(b), Some(a)) => b.0 < a.0,
            _ => true,
        },
{
    lemma_flat_none(Side::Bid, m.bids);
    lemma_flat_none(Side::Ask, m.asks);
    if let (Some(b), Some(a)) = (best_level(Side::Bid, m.bids), best_level(Side::Ask, m.asks)) {
        assert(m.bids[b].len() > 0 && m.asks[a].len() > 0);
        assert(m.at(Side::Bid, b, 0) && m.order(Side::Bid, b, 0) == m.bids[b][0]);
        assert(m.at(Side::Ask, a, 0) && m.order(Side::Ask, a, 0) == m.asks[a][0]);
        m.cfg.law_grid_monotone(b, a);
    }
}

/// `ev` is what happens between an incoming order and the resting order
/// `maker`: a trade at the maker's price, or the end of the maker where it
/// belongs to the same trader.
pub open spec fn answers(t: Taker, ev: OutputEvent, maker: SnapOrder) -> bool {
    &&& t.reaches(maker)
    &&& match ev {
        OutputEvent::Fill { qty, .. } => {
            &&& !t.own(maker)
            &&& ev == t.fill(maker, qty.0)
            &&& 0 < qty.0 <= maker.remaining
        },
        OutputEvent::Cancelled { .. } => {
            &&& t.own(maker)
            &&& ev == t.kill(maker.order_id, maker.remaining, CancelReason::SelfTradePrevention)
        },
        _ => false,
    }
}

/// `ev` leaves nothing of `maker`.
pub open spec fn exhausts(ev: OutputEvent, maker: SnapOrder) -> bool {
    ev matches OutputEvent::Fill { qty, .. } ==> qty.0 == maker.remaining
}

/// Price-time priority: an incoming order meets the resting orders of the
/// other side one by one, best price first and oldest first. It goes on to the
/// next only when the one before is gone, and nobody out of its reach is met.
/// Where self-trade prevention ends it, that is the last event.
pub proof fn law_price_time_priority(t: Taker, l: Ladder, remaining: u64)
    requires
        positive(l),
    ensures
        ({
            let w = sweep(t, l, remaining);
            let queue = flat(t.side.opposite(), l);
            let n = w.events.len() - (if w.killed {
                1int
            } else {
                0
            });
            &&& 0 <= n <= queue.len()
            &&& forall|j: int| 0 <= j < n ==> answers(t, #[trigger] w.events[j], queue[j])
            &&& forall|j: int| 0 <= j < n - 1 ==> exhausts(#[trigger] w.events[j], queue[j])
            &&& w.killed ==> w.events[n] == t.kill(
                t.id.0,
                w.remaining,
                CancelReason::SelfTradePrevention,
            )
        }),
    decreases order_total(l),
{
    let opp = t.side.opposite();
    let w = sweep(t, l, remaining);
    let queue = flat(opp, l);
    if let Some(b) = best_level(opp, l) {
        lemma_drop_head(opp, l, b);
        let d = drop_head(l, b);
        let maker = l[b][0];
        lemma_flat_head(opp, l, b, maker);
        assert(maker.remaining > 0);
        assert(positive(d)) by {
            lemma_drop_head_trims(l, b);
        }
        if remaining > 0 && t.reaches(maker) {
            if t.own(maker) && t.stp == SelfTradePrevention::CancelResting {
                law_price_time_priority(t, d, remaining);
                lemma_met_first(
                    t,
                    queue,
                    sweep(t, d, remaining),
                    t.kill(maker.order_id, maker.remaining, CancelReason::SelfTradePrevention),
                );
            } else if !t.own(maker) && maker.remaining <= remaining {
                let r = (remaining - maker.remaining) as u64;
                law_price_time_priority(t, d, r);
                lemma_met_first(t, queue, sweep(t, d, r), t.fill(maker, maker.remaining));
            }
        }
    }
}

/// One order met and gone before the others.
proof fn lemma_met_first(t: Taker, queue: Seq<SnapOrder>, v: Sweep, first: OutputEvent)
    requires
        queue.len() > 0,
        answers(t, first, queue[0]),
        exhausts(first, queue[0]),
        ({
            let n = v.events.len() - (if v.killed {
                1int
            } else {
                0
            });
            &&& 0 <= n <= queue.len() - 1
            &&& forall|j: int| 0 <= j < n ==> answers(t, #[trigger] v.events[j], queue.skip(1)[j])
            &&& forall|j: int|
                0 <= j < n - 1 ==> exhausts(#[trigger] v.events[j], queue.skip(1)[j])
        }),
    ensures
        ({
            let w = v.after(seq![first]);
            let n = w.events.len() - (if w.killed {
                1int
            } else {
                0
            });
            &&& 0 <= n <= queue.len()
            &&& forall|j: int| 0 <= j < n ==> answers(t, #[trigger] w.events[j], queue[j])
            &&& forall|j: int| 0 <= j < n - 1 ==> exhausts(#[trigger] w.events[j], queue[j])
            &&& w.killed ==> w.events[n] == v.events[n - 1]
        }),
{
    let w = v.after(seq![first]);
    let n = w.events.len() - (if w.killed {
        1int
    } else {
        0
    });
    assert forall|j: int| 0 <= j < n implies answers(t, #[trigger] w.events[j], queue[j]) by {
        if j > 0 {
            assert(w.events[j] == v.events[j - 1]);
            assert(queue.skip(1)[j - 1] == queue[j]);
        }
    }
    assert forall|j: int| 0 <= j < n - 1 implies exhausts(#[trigger] w.events[j], queue[j]) by {
        if j > 0 {
            assert(w.events[j] == v.events[j - 1]);
            assert(queue.skip(1)[j - 1] == queue[j]);
        }
    }
}

/// Everything that matching reports belongs to the incoming order, and it is
/// neither an acknowledgement nor a refusal.
proof fn lemma_sweep_events(t: Taker, l: Ladder, remaining: u64)
    ensures
        ({
            let w = sweep(t, l, remaining);
            &&& forall|j: int|
                0 <= j < w.events.len() ==> (#[trigger] w.events[j]).cause() == t.seq
                    && w.events[j] !is Ack && w.events[j] !is Rejected
            &&& w.events.len() <= order_total(l) + (if w.killed {
                1int
            } else {
                0
            })
        }),
    decreases order_total(l),
{
    let opp = t.side.opposite();
    let w = sweep(t, l, remaining);
    if let Some(b) = best_level(opp, l) {
        lemma_drop_head(opp, l, b);
        let d = drop_head(l, b);
        let maker = l[b][0];
        lemma_sweep_events(t, d, remaining);
        if maker.remaining <= remaining {
            lemma_sweep_events(t, d, (remaining - maker.remaining) as u64);
        }
        if remaining > 0 && t.reaches(maker) && (t.own(maker) && t.stp
            == SelfTradePrevention::CancelResting || !t.own(maker) && maker.remaining
            <= remaining) {
            let r = if t.own(maker) {
                remaining
            } else {
                (remaining - maker.remaining) as u64
            };
            let v = sweep(t, d, r);
            assert forall|j: int| 1 <= j < w.events.len() implies #[trigger] w.events[j]
                == v.events[j - 1] by {}
        }
    }
}

/// What an accepted order reports, and how much of it.
pub(crate) proof fn lemma_enter_events(m: BookModel, t: Taker, qty: u64, tif: TimeInForce)
    ensures
        ({
            let e = enter(m, t, qty, tif);
            &&& forall|j: int|
                0 <= j < e.events.len() ==> (#[trigger] e.events[j]).cause() == t.seq
                    && e.events[j] !is Ack && e.events[j] !is Rejected
            &&& e.events.len() <= order_total(m.side(t.side.opposite())) + 1
        }),
{
    lemma_sweep_events(t, m.side(t.side.opposite()), qty);
}

/// Every output carries the sequence number of the input that caused it.
pub proof fn law_output_carries_seq(m: BookModel, ev: InputEvent)
    ensures
        forall|j: int|
            0 <= j < step(m, ev).events.len() ==> (#[trigger] step(m, ev).events[j]).cause()
                == ev.seq(),
{
    match ev {
        InputEvent::New { seq, order_id, trader, side, price, qty, tif, stp } => {
            lemma_enter_events(m, Taker { seq, id: order_id, trader, side, price, stp }, qty.0, tif);
        },
        InputEvent::Cancel { .. } => {},
        InputEvent::Modify { seq, order_id, trader, new_price, new_qty } => {
            let o = m.find(order_id.0);
            let t = Taker { seq, id: order_id, trader, side: o.side, price: new_price, stp: o.stp };
            lemma_enter_events(m.removed(order_id.0), t, new_qty.0, TimeInForce::Gtc);
        },
    }
}

/// A refused instruction is answered by its refusal alone and leaves the book
/// untouched.
pub proof fn law_reject_is_noop(m: BookModel, ev: InputEvent, j: int)
    requires
        0 <= j < step(m, ev).events.len(),
        step(m, ev).events[j] is Rejected,
    ensures
        step(m, ev).book == m,
        step(m, ev).events.len() == 1,
{
    match ev {
        InputEvent::New { seq, order_id, trader, side, price, qty, tif, stp } => {
            lemma_enter_events(m, Taker { seq, id: order_id, trader, side, price, stp }, qty.0, tif);
        },
        InputEvent::Cancel { .. } => {},
        InputEvent::Modify { seq, order_id, trader, new_price, new_qty } => {
            let o = m.find(order_id.0);
            let t = Taker { seq, id: order_id, trader, side: o.side, price: new_price, stp: o.stp };
            lemma_enter_events(m.removed(order_id.0), t, new_qty.0, TimeInForce::Gtc);
        },
    }
}

/// Every resting order contributes at most one event to an answer, and the
/// instruction itself at most two.
pub proof fn law_answer_is_bounded(m: BookModel, ev: InputEvent)
    requires
        m.wf(),
    ensures
        0 < step(m, ev).events.len() <= m.live() + 2,
{
    match ev {
        InputEvent::New { seq, order_id, trader, side, price, qty, tif, stp } => {
            lemma_enter_events(m, Taker { seq, id: order_id, trader, side, price, stp }, qty.0, tif);
        },
        InputEvent::Cancel { .. } => {},
        InputEvent::Modify { seq, order_id, trader, new_price, new_qty } => {
            if m.has(order_id.0) {
                lemma_removed_wf(m, order_id.0);
            }
            let o = m.find(order_id.0);
            let t = Taker { seq, id: order_id, trader, side: o.side, price: new_price, stp: o.stp };
            lemma_enter_events(m.removed(order_id.0), t, new_qty.0, TimeInForce::Gtc);
        },
    }
}

/// Matching pays for its events with the orders it takes off.
proof fn lemma_sweep_pays(t: Taker, l: Ladder, remaining: u64)
    ensures
        sweep(t, l, remaining).events.len() + order_total(sweep(t, l, remaining).ladder)
            <= order_total(l) + 1,
    decreases order_total(l),
{
    let opp = t.side.opposite();
    if let Some(b) = best_level(opp, l) {
        lemma_drop_head(opp, l, b);
        let d = drop_head(l, b);
        let maker = l[b][0];
        let left = SnapOrder { remaining: (maker.remaining - remaining) as u64, ..maker };
        lemma_total_update(l, b, l[b].update(0, left));
        lemma_sweep_pays(t, d, remaining);
        if maker.remaining <= remaining {
            lemma_sweep_pays(t, d, (remaining - maker.remaining) as u64);
        }
    }
}

proof fn lemma_enter_pays(m: BookModel, t: Taker, qty: u64, tif: TimeInForce)
    requires
        m.wf(),
        m.cfg.level_of(t.price) is Some,
    ensures
        enter(m, t, qty, tif).events.len() + enter(m, t, qty, tif).book.live() <= m.live() + 2,
{
    let opp = t.side.opposite();
    let w = sweep(t, m.side(opp), qty);
    lemma_sweep_pays(t, m.side(opp), qty);
    if !w.killed && w.remaining > 0 && tif == TimeInForce::Gtc {
        m.cfg.lemma_level_of(t.price);
        let i = m.cfg.level_of(t.price)->0 as int;
        let o = SnapOrder {
            order_id: t.id.0,
            trader: t.trader.0,
            side: t.side,
            price: t.price.0,
            remaining: w.remaining,
            original_qty: qty,
            stp: t.stp,
        };
        lemma_total_update(m.side(t.side), i, m.side(t.side)[i].push(o));
    }
}

/// Output is paid for: what an instruction answers beyond three events, it
/// takes off the book.
pub proof fn law_output_is_paid_for(m: BookModel, ev: InputEvent)
    requires
        m.wf(),
    ensures
        step(m, ev).events.len() + step(m, ev).book.live() <= m.live() + 3,
{
    match ev {
        InputEvent::New { seq, order_id, trader, side, price, qty, tif, stp } => {
            if m.cfg.level_of(price) is Some {
                let t = Taker { seq, id: order_id, trader, side, price, stp };
                lemma_enter_pays(m, t, qty.0, tif);
            }
        },
        InputEvent::Cancel { seq, order_id, trader } => {
            if m.has(order_id.0) {
                lemma_removed_wf(m, order_id.0);
            }
        },
        InputEvent::Modify { seq, order_id, trader, new_price, new_qty } => {
            if m.has(order_id.0) && m.cfg.level_of(new_price) is Some {
                lemma_removed_wf(m, order_id.0);
                let o = m.find(order_id.0);
                let t = Taker { seq, id: order_id, trader, side: o.side, price: new_price, stp: o.stp };
                lemma_enter_pays(m.removed(order_id.0), t, new_qty.0, TimeInForce::Gtc);
            }
        },
    }
}

/// A session answers with at most three events per instruction.
pub proof fn law_session_output_bound(m: BookModel, evs: Seq<InputEvent>)
    requires
        m.wf(),
    ensures
        run(m, evs).events.len() + run(m, evs).book.live() <= m.live() + 3 * evs.len(),
    decreases evs.len(),
{
    if evs.len() > 0 {
        law_session_output_bound(m, evs.drop_last());
        law_run_valid(m, evs.drop_last());
        law_output_is_paid_for(run(m, evs.drop_last()).book, evs.last());
    }
}

/// A buffer sized for the book never drops an event of a single instruction.
pub proof fn law_buffer_suffices(m: BookModel, ev: InputEvent, limit: nat)
    requires
        m.wf(),
        limit >= m.cfg.max_live_orders + 8,
    ensures
        clip(Seq::empty() + step(m, ev).events, limit) == step(m, ev).events,
{
    law_answer_is_bounded(m, ev);
    assert(Seq::empty() + step(m, ev).events =~= step(m, ev).events);
}

/// An order that is not good-till-cancel never rests: a cancel for it finds
/// nothing.
pub proof fn law_immediate_never_rests(
    m: BookModel,
    t: Taker,
    qty: Qty,
    tif: TimeInForce,
    seq: SeqNo,
    trader: TraderId,
)
    requires
        m.wf(),
        !m.has(t.id.0),
        tif != TimeInForce::Gtc,
    ensures
        ({
            let after = step_new(m, t, qty, tif).book;
            &&& !after.has(t.id.0)
            &&& step_cancel(after, seq, t.id, trader) == refused(
                after,
                seq,
                t.id,
                RejectReason::UnknownOrderId,
            )
        }),
{
    if qty.0 > 0 && m.cfg.level_of(t.price) is Some && m.live() < m.cfg.max_live_orders {
        lemma_enter_valid(m, t, qty.0, tif);
    }
}

/// Where enough is available, matching fills the order.
proof fn lemma_available_fills(t: Taker, l: Ladder, remaining: u64)
    requires
        available(t, l) >= remaining,
    ensures
        sweep(t, l, remaining).remaining == 0,
        !sweep(t, l, remaining).killed,
    decreases order_total(l),
{
    let opp = t.side.opposite();
    if let Some(b) = best_level(opp, l) {
        lemma_drop_head(opp, l, b);
        let d = drop_head(l, b);
        let maker = l[b][0];
        if remaining > 0 && t.reaches(maker) {
            if t.own(maker) {
                lemma_available_fills(t, d, remaining);
            } else if maker.remaining <= remaining {
                lemma_available_fills(t, d, (remaining - maker.remaining) as u64);
            }
        }
    }
}

/// Fill-or-kill is all or nothing: the order is refused and the book left
/// untouched, or it fills at once to the last lot.
pub proof fn law_fill_or_kill(m: BookModel, t: Taker, qty: Qty)
    requires
        m.wf(),
    ensures
        ({
            let r = step_new(m, t, qty, TimeInForce::Fok);
            let w = sweep(t, m.side(t.side.opposite()), qty.0);
            ||| {
                &&& r.book == m
                &&& r.events.len() == 1
                &&& r.events[0] is Rejected
            }
            ||| {
                &&& w.remaining == 0
                &&& !w.killed
                &&& r.book == m.with_side(t.side.opposite(), w.ladder)
                &&& r.events == seq![OutputEvent::Ack { seq: t.seq, order_id: t.id }] + w.events
            }
        }),
{
    let l = m.side(t.side.opposite());
    if available(t, l) >= qty.0 {
        lemma_available_fills(t, l, qty.0);
    }
}

/// A modify that is not refused is a cancel followed by a new good-till-cancel
/// order of the same side and self-trade rule.
pub proof fn law_modify_is_cancel_and_new(
    m: BookModel,
    seq: SeqNo,
    order_id: OrderId,
    trader: TraderId,
    new_price: Price,
    new_qty: Qty,
)
    requires
        m.wf(),
        m.has(order_id.0),
        m.find(order_id.0).trader == trader.0,
        new_qty.0 > 0,
        m.cfg.level_of(new_price) is Some,
    ensures
        ({
            let whole = step(m, InputEvent::Modify { seq, order_id, trader, new_price, new_qty });
            let first = step(m, InputEvent::Cancel { seq, order_id, trader });
            let second = step(
                first.book,
                InputEvent::New {
                    seq,
                    order_id,
                    trader,
                    side: m.find(order_id.0).side,
                    price: new_price,
                    qty: new_qty,
                    tif: TimeInForce::Gtc,
                    stp: m.find(order_id.0).stp,
                },
            );
            &&& whole.book == second.book
            &&& whole.events == first.events + second.events
        }),
{
    lemma_removed_wf(m, order_id.0);
    let o = m.find(order_id.0);
    let t = Taker { seq, id: order_id, trader, side: o.side, price: new_price, stp: o.stp };
    let e = enter(m.removed(order_id.0), t, new_qty.0, TimeInForce::Gtc).events;
    let gone = OutputEvent::Cancelled {
        seq,
        order_id,
        remaining: Qty(o.remaining),
        reason: CancelReason::User,
    };
    let ack = OutputEvent::Ack { seq, order_id };
    assert(seq![gone, ack] + e =~= seq![gone] + (seq![ack] + e));
}

/// Whoever comes to rest stands last at its price: a new order, and a modified
/// one even at an unchanged price.
pub proof fn law_newcomer_stands_last(m: BookModel, ev: InputEvent, id: OrderId)
    requires
        m.wf(),
        match ev {
            InputEvent::New { order_id, .. } => order_id == id && !m.has(id.0),
            InputEvent::Modify { order_id, .. } => order_id == id && step(m, ev).events[0]
                !is Rejected,
            InputEvent::Cancel { .. } => false,
        },
        step(m, ev).book.has(id.0),
    ensures
        ({
            let (s, price) = match ev {
                InputEvent::New { side, price, .. } => (side, price),
                InputEvent::Modify { new_price, .. } => (m.find(id.0).side, new_price),
                InputEvent::Cancel { .. } => (Side::Bid, Price(0)),
            };
            let i = m.cfg.level_of(price)->0 as int;
            let b = step(m, ev).book;
            &&& m.cfg.level_of(price) is Some
            &&& 0 <= i < b.side(s).len()
            &&& b.side(s)[i].len() > 0
            &&& b.side(s)[i].last().order_id == id.0
            &&& b.find(id.0) == b.side(s)[i].last()
        }),
{
    match ev {
        InputEvent::New { seq, order_id, trader, side, price, qty, tif, stp } => {
            let t = Taker { seq, id: order_id, trader, side, price, stp };
            lemma_enter_last(m, t, qty.0, tif);
            law_step_valid(m, ev);
            lemma_found_last(step(m, ev).book, side, m.cfg.level_of(price)->0 as int);
        },
        InputEvent::Modify { seq, order_id, trader, new_price, new_qty } => {
            lemma_removed_wf(m, order_id.0);
            let o = m.find(order_id.0);
            let t = Taker { seq, id: order_id, trader, side: o.side, price: new_price, stp: o.stp };
            lemma_enter_last(m.removed(order_id.0), t, new_qty.0, TimeInForce::Gtc);
            law_step_valid(m, ev);
            lemma_found_last(step(m, ev).book, o.side, m.cfg.level_of(new_price)->0 as int);
        },
        InputEvent::Cancel { .. } => {},
    }
}

/// The last order of a queue is the one found under its id.
proof fn lemma_found_last(m: BookModel, s: Side, i: int)
    requires
        m.wf(),
        0 <= i < m.side(s).len(),
        m.side(s)[i].len() > 0,
    ensures
        m.find(m.side(s)[i].last().order_id) == m.side(s)[i].last(),
{
    let k = m.side(s)[i].len() - 1;
    assert(m.at(s, i, k) && m.order(s, i, k) == m.side(s)[i].last());
}

proof fn lemma_enter_last(m: BookModel, t: Taker, qty: u64, tif: TimeInForce)
    requires
        m.wf(),
        !m.has(t.id.0),
        m.cfg.level_of(t.price) is Some,
        m.live() < m.cfg.max_live_orders,
        enter(m, t, qty, tif).book.has(t.id.0),
    ensures
        ({
            let b = enter(m, t, qty, tif).book;
            let i = m.cfg.level_of(t.price)->0 as int;
            &&& 0 <= i < b.side(t.side).len()
            &&& b.side(t.side)[i].len() > 0
            &&& b.side(t.side)[i].last().order_id == t.id.0
        }),
{
    let opp = t.side.opposite();
    let w = sweep(t, m.side(opp), qty);
    lemma_wf_positive(m, opp);
    lemma_sweep_trims(t, m.side(opp), qty);
    lemma_trimmed_wf(m, opp, w.ladder);
    m.cfg.lemma_level_of(t.price);
}

/// A cancelled id can be used again at once.
pub proof fn law_id_reusable(m: BookModel, seq: SeqNo, order_id: OrderId, trader: TraderId)
    requires
        m.wf(),
        m.has(order_id.0),
        m.find(order_id.0).trader == trader.0,
    ensures
        !step_cancel(m, seq, order_id, trader).book.has(order_id.0),
        step_cancel(m, seq, order_id, trader).book.live() == m.live() - 1,
{
    lemma_removed_wf(m, order_id.0);
}

/// Only the owner of an order can take it off or change it.
pub proof fn law_only_the_owner(m: BookModel, ev: InputEvent)
    requires
        match ev {
            InputEvent::Cancel { order_id, trader, .. } => m.has(order_id.0) && m.find(
                order_id.0,
            ).trader != trader.0,
            InputEvent::Modify { order_id, trader, .. } => m.has(order_id.0) && m.find(
                order_id.0,
            ).trader != trader.0,
            InputEvent::New { .. } => false,
        },
    ensures
        step(m, ev).book == m,
        step(m, ev).events.len() == 1,
        step(m, ev).events[0] matches OutputEvent::Rejected { reason, .. } && reason
            == RejectReason::WrongTrader,
{
}

/// A run: one instruction after the other.
pub open spec fn run(m: BookModel, evs: Seq<InputEvent>) -> Step
    decreases evs.len(),
{
    if evs.len() == 0 {
        Step { book: m, events: Seq::empty() }
    } else {
        let before = run(m, evs.drop_last());
        let last = step(before.book, evs.last());
        Step { book: last.book, events: before.events + last.events }
    }
}

/// Replaying a log in two parts is replaying it whole: what comes after a
/// point only depends on the book at that point.
pub proof fn law_replay_in_parts(m: BookModel, a: Seq<InputEvent>, b: Seq<InputEvent>)
    ensures
        run(m, a + b).book == run(run(m, a).book, b).book,
        run(m, a + b).events == run(m, a).events + run(run(m, a).book, b).events,
    decreases b.len(),
{
    if b.len() == 0 {
        assert(a + b =~= a);
        assert(run(m, a).events + run(run(m, a).book, b).events =~= run(m, a).events);
    } else {
        assert((a + b).drop_last() =~= a + b.drop_last());
        law_replay_in_parts(m, a, b.drop_last());
        assert(run(m, a + b).events =~= run(m, a).events + run(run(m, a).book, b).events);
    }
}

/// Every book that a run reaches is valid, and uncrossed where the first was.
pub proof fn law_run_valid(m: BookModel, evs: Seq<InputEvent>)
    requires
        m.wf(),
    ensures
        run(m, evs).book.wf(),
        run(m, evs).book.cfg == m.cfg,
        m.uncrossed() ==> run(m, evs).book.uncrossed(),
    decreases evs.len(),
{
    if evs.len() > 0 {
        law_run_valid(m, evs.drop_last());
        let before = run(m, evs.drop_last()).book;
        law_step_valid(before, evs.last());
        if m.uncrossed() {
            law_never_crosses(before, evs.last());
        }
    }
}

/// An empty book is valid and uncrossed.
pub proof fn law_empty_valid(cfg: BookConfig)
    requires
        cfg.wf(),
    ensures
        BookModel::empty(cfg).wf(),
        BookModel::empty(cfg).uncrossed(),
        BookModel::empty(cfg).live() == 0,
{
    lemma_total_empty(BookModel::empty(cfg).bids);
}

/// Fast-forward: a snapshot taken in the middle of a log, restored, and the
/// rest of the log replayed on it end where a full replay ends.
pub proof fn law_fast_forward(m: BookModel, a: Seq<InputEvent>, b: Seq<InputEvent>)
    requires
        m.wf(),
    ensures
        ({
            let mid = run(m, a).book;
            &&& restored(mid.cfg, all_orders(mid)) == Ok::<_, Seq<char>>(mid)
            &&& run(restored(mid.cfg, all_orders(mid))->Ok_0, b).book == run(m, a + b).book
            &&& book_hash(run(restored(mid.cfg, all_orders(mid))->Ok_0, b).book) == book_hash(
                run(m, a + b).book,
            )
        }),
{
    law_run_valid(m, a);
    law_snapshot_round_trip(run(m, a).book);
    law_replay_in_parts(m, a, b);
}

} // verus!
