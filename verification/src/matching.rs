//! What comes of an incoming order, told by its outcome: whom it meets, what
//! the self-trade rules do, when it ends, and when all-or-nothing is all.

use crate::events::{CancelReason, InputEvent, OutputEvent, RejectReason};
use crate::laws::{
    law_fill_or_kill, lemma_sweep_exhausts, lemma_sweep_trims, lemma_trimmed_wf, lemma_wf_positive,
    positive,
};
use crate::ledger::{
    filled, lemma_filled_concat, lemma_resting_none, lemma_single, lemma_sweep_conserves,
    lemma_sweep_spares, resting,
};
use crate::model::{
    available, best_level, drop_head, is_best_level, lemma_best_exists, lemma_drop_head, order_total,
    step_new, sweep, BookModel, Ladder, Sweep, Taker,
};
use crate::snapshot::SnapOrder;
use crate::types::{Qty, SelfTradePrevention, Side, TimeInForce};
use vstd::prelude::*;

verus! {

/// A price that an incoming order is willing to trade at: a bid pays its limit
/// at most, an ask takes its limit at least.
pub open spec fn within_limit(t: Taker, price: i64) -> bool {
    match t.side {
        Side::Bid => price <= t.price.0,
        Side::Ask => price >= t.price.0,
    }
}

/// The orders of a trader.
pub open spec fn by_trader(trader: u32) -> spec_fn(SnapOrder) -> bool {
    |o: SnapOrder| o.trader == trader
}

/// `ev` tells what became of number `k` of level `i`: it traded with the
/// incoming order, at its own price and within the limit of the other; or it
/// was taken off whole, because it is of the same trader and the rule says so.
pub open spec fn concerns(t: Taker, l: Ladder, ev: OutputEvent, i: int, k: int) -> bool {
    &&& 0 <= i < l.len()
    &&& 0 <= k < l[i].len()
    &&& within_limit(t, l[i][k].price)
    &&& match ev {
        OutputEvent::Fill { seq, taker, maker, price, qty, taker_side } => {
            &&& seq == t.seq
            &&& taker == t.id
            &&& maker.0 == l[i][k].order_id
            &&& price.0 == l[i][k].price
            &&& 0 < qty.0 <= l[i][k].remaining
            &&& taker_side == t.side
            &&& t.stp == SelfTradePrevention::Disabled || l[i][k].trader != t.trader.0
        },
        OutputEvent::Cancelled { seq, order_id, remaining, reason } => {
            &&& seq == t.seq
            &&& order_id.0 == l[i][k].order_id
            &&& remaining.0 == l[i][k].remaining
            &&& reason == CancelReason::SelfTradePrevention
            &&& l[i][k].trader == t.trader.0
            &&& t.stp == SelfTradePrevention::CancelResting || t.stp
                == SelfTradePrevention::CancelBoth
        },
        _ => false,
    }
}

/// `ev` concerns some order of the ladder.
pub open spec fn concerns_some(t: Taker, l: Ladder, ev: OutputEvent) -> bool {
    exists|i: int, k: int| concerns(t, l, ev, i, k)
}

/// The event that ends an incoming order under a self-trade rule.
pub open spec fn ends_incoming(t: Taker, left: u64, ev: OutputEvent) -> bool {
    ev == (OutputEvent::Cancelled {
        seq: t.seq,
        order_id: t.id,
        remaining: Qty(left),
        reason: CancelReason::SelfTradePrevention,
    })
}

/// An event that concerns an order behind the front concerns it with the front
/// in place, too.
proof fn lemma_concerns_behind(t: Taker, l: Ladder, b: int, ev: OutputEvent)
    requires
        0 <= b < l.len(),
        l[b].len() > 0,
        concerns_some(t, drop_head(l, b), ev),
    ensures
        concerns_some(t, l, ev),
{
    let d = drop_head(l, b);
    let (i, k) = choose|i: int, k: int| concerns(t, d, ev, i, k);
    let from = if i == b {
        k + 1
    } else {
        k
    };
    assert(d[i][k] == l[i][from]);
    assert(concerns(t, l, ev, i, from));
}

/// Without the front of a level, quantities are still positive.
proof fn lemma_drop_positive(l: Ladder, b: int)
    requires
        positive(l),
        0 <= b < l.len(),
        l[b].len() > 0,
    ensures
        positive(drop_head(l, b)),
{
    let d = drop_head(l, b);
    assert forall|i: int, k: int| 0 <= i < d.len() && 0 <= k < (#[trigger] d[i]).len() implies (
    #[trigger] d[i][k]).remaining > 0 by {
        if i == b {
            assert(d[i][k] == l[i][k + 1]);
        } else {
            assert(d[i][k] == l[i][k]);
        }
    }
}

/// One event first, the rest behind it: the rest concerns the ladder as before.
proof fn lemma_concerns_after(t: Taker, l: Ladder, b: int, v: Sweep, first: OutputEvent, n: int)
    requires
        0 <= b < l.len(),
        l[b].len() > 0,
        concerns_some(t, l, first),
        n <= v.events.len(),
        forall|j: int|
            0 <= j < n ==> concerns_some(t, drop_head(l, b), #[trigger] v.events[j]),
    ensures
        forall|j: int|
            0 <= j < n + 1 ==> concerns_some(t, l, #[trigger] v.after(seq![first]).events[j]),
{
    let w = v.after(seq![first]);
    assert forall|j: int| 0 <= j < n + 1 implies concerns_some(t, l, #[trigger] w.events[j]) by {
        if j > 0 {
            assert(w.events[j] == v.events[j - 1]);
            lemma_concerns_behind(t, l, b, v.events[j - 1]);
        }
    }
}

/// Everything that matching reports concerns a resting order within the limit
/// of the incoming one, but for the last event of an order that a self-trade
/// rule ends. Only `CancelAggressor` and `CancelBoth` end an order, and only
/// while it wants something. Once it wants nothing, nothing happens any more:
/// the last event of an order that gets all is a trade.
#[verifier::spinoff_prover]
#[verifier::rlimit(40)]
pub proof fn law_matching_concerns(t: Taker, l: Ladder, remaining: u64)
    requires
        positive(l),
    ensures
        ({
            let w = sweep(t, l, remaining);
            let n = w.events.len() as int;
            &&& !w.killed ==> forall|j: int|
                0 <= j < n ==> concerns_some(t, l, #[trigger] w.events[j])
            &&& w.killed ==> {
                &&& n > 0
                &&& ends_incoming(t, w.remaining, w.events[n - 1])
                &&& w.remaining > 0
                &&& t.stp == SelfTradePrevention::CancelAggressor || t.stp
                    == SelfTradePrevention::CancelBoth
                &&& forall|j: int|
                    0 <= j < n - 1 ==> concerns_some(t, l, #[trigger] w.events[j])
            }
            &&& remaining == 0 ==> n == 0 && w.ladder == l && w.remaining == 0
            &&& remaining > 0 && w.remaining == 0 ==> n > 0 && w.events[n - 1] is Fill
        }),
    decreases order_total(l),
{
    let opp = t.side.opposite();
    let w = sweep(t, l, remaining);
    if let Some(b) = best_level(opp, l) {
        lemma_drop_head(opp, l, b);
        lemma_drop_positive(l, b);
        let d = drop_head(l, b);
        let maker = l[b][0];
        assert(maker.remaining > 0);
        if remaining > 0 && t.reaches(maker) {
            let gone = t.kill(
                maker.order_id,
                maker.remaining,
                CancelReason::SelfTradePrevention,
            );
            if t.own(maker) {
                if t.stp == SelfTradePrevention::CancelResting {
                    let v = sweep(t, d, remaining);
                    law_matching_concerns(t, d, remaining);
                    assert(concerns(t, l, gone, b, 0));
                    lemma_concerns_after(t, l, b, v, gone, v.events.len() as int);
                    assert(w.events.last() == v.events.last() || v.events.len() == 0);
                } else if t.stp == SelfTradePrevention::CancelBoth {
                    assert(concerns(t, l, gone, b, 0));
                }
            } else if maker.remaining <= remaining {
                let r = (remaining - maker.remaining) as u64;
                let v = sweep(t, d, r);
                let f = t.fill(maker, maker.remaining);
                law_matching_concerns(t, d, r);
                assert(concerns(t, l, f, b, 0));
                lemma_concerns_after(
                    t,
                    l,
                    b,
                    v,
                    f,
                    v.events.len() - (if v.killed {
                        1int
                    } else {
                        0
                    }),
                );
                assert(v.events.len() > 0 ==> w.events.last() == v.events.last());
            } else {
                assert(concerns(t, l, t.fill(maker, remaining), b, 0));
            }
        }
    }
}

/// A filter passes over a front that it does not take.
proof fn lemma_filter_front(q: Seq<SnapOrder>, p: spec_fn(SnapOrder) -> bool)
    requires
        q.len() > 0,
    ensures
        q.filter(p) == (if p(q[0]) {
            seq![q[0]] + q.skip(1).filter(p)
        } else {
            q.skip(1).filter(p)
        }),
    decreases q.len(),
{
    reveal(Seq::filter);
    if q.len() == 1 {
        assert(q.skip(1) =~= Seq::empty());
        assert(q.drop_last() =~= Seq::empty());
        assert(q.drop_last().filter(p) =~= Seq::empty());
        assert(q.skip(1).filter(p) =~= Seq::empty());
        assert(seq![q[0]] + q.skip(1).filter(p) =~= seq![q[0]]);
    } else {
        let d = q.drop_last();
        lemma_filter_front(d, p);
        assert(d.skip(1) =~= q.skip(1).drop_last());
        assert(q.skip(1).last() == q.last());
        assert(q.filter(p) =~= (if p(q[0]) {
            seq![q[0]] + q.skip(1).filter(p)
        } else {
            q.skip(1).filter(p)
        }));
    }
}

/// Under `CancelAggressor` the incoming order is the one that goes: nothing
/// that matching reports takes a resting order off, and every resting order of
/// the trader stands afterwards exactly as before.
pub proof fn law_cancel_aggressor_spares_the_resting(t: Taker, l: Ladder, remaining: u64)
    requires
        positive(l),
        t.stp == SelfTradePrevention::CancelAggressor,
    ensures
        ({
            let w = sweep(t, l, remaining);
            let n = w.events.len() as int;
            &&& forall|j: int|
                0 <= j < n ==> #[trigger] w.events[j] is Fill || (w.killed && j == n - 1)
            &&& w.ladder.len() == l.len()
            &&& forall|i: int|
                0 <= i < l.len() ==> (#[trigger] w.ladder[i]).filter(by_trader(t.trader.0))
                    == l[i].filter(by_trader(t.trader.0))
        }),
    decreases order_total(l),
{
    let opp = t.side.opposite();
    let w = sweep(t, l, remaining);
    let mine = by_trader(t.trader.0);
    if let Some(b) = best_level(opp, l) {
        lemma_drop_head(opp, l, b);
        lemma_drop_positive(l, b);
        let d = drop_head(l, b);
        let maker = l[b][0];
        if remaining > 0 && t.reaches(maker) && !t.own(maker) {
            lemma_filter_front(l[b], mine);
            if maker.remaining <= remaining {
                let r = (remaining - maker.remaining) as u64;
                law_cancel_aggressor_spares_the_resting(t, d, r);
                let v = sweep(t, d, r);
                assert forall|j: int| 0 <= j < w.events.len() implies #[trigger] w.events[j] is Fill
                    || (w.killed && j == w.events.len() - 1) by {
                    if j > 0 {
                        assert(w.events[j] == v.events[j - 1]);
                    }
                }
            } else {
                lemma_filter_front(w.ladder[b], mine);
                assert(w.ladder[b].skip(1) =~= l[b].skip(1));
            }
        }
    }
}

/// Under `CancelResting` the incoming order is never the one that goes; and a
/// resting order of the trader that is left was not touched, those taken off
/// stood before it.
#[verifier::spinoff_prover]
#[verifier::rlimit(40)]
pub proof fn law_cancel_resting_spares_the_incoming(t: Taker, l: Ladder, remaining: u64)
    requires
        t.stp == SelfTradePrevention::CancelResting,
    ensures
        ({
            let w = sweep(t, l, remaining);
            &&& !w.killed
            &&& w.ladder.len() == l.len()
            &&& forall|i: int|
                0 <= i < l.len() ==> (#[trigger] w.ladder[i]).filter(
                    by_trader(t.trader.0),
                ).is_suffix_of(l[i].filter(by_trader(t.trader.0)))
        }),
    decreases order_total(l),
{
    let opp = t.side.opposite();
    let w = sweep(t, l, remaining);
    let mine = by_trader(t.trader.0);
    assert forall|i: int| 0 <= i < l.len() implies (#[trigger] l[i]).filter(mine).is_suffix_of(
        l[i].filter(mine),
    ) by {
        assert(l[i].filter(mine) =~= l[i].filter(mine).subrange(
            0,
            l[i].filter(mine).len() as int,
        ));
    }
    if let Some(b) = best_level(opp, l) {
        lemma_drop_head(opp, l, b);
        let d = drop_head(l, b);
        let maker = l[b][0];
        if remaining > 0 && t.reaches(maker) {
            lemma_filter_front(l[b], mine);
            if t.own(maker) || maker.remaining <= remaining {
                let r = if t.own(maker) {
                    remaining
                } else {
                    (remaining - maker.remaining) as u64
                };
                law_cancel_resting_spares_the_incoming(t, d, r);
                assert forall|i: int| 0 <= i < l.len() implies (#[trigger] w.ladder[i]).filter(
                    mine,
                ).is_suffix_of(l[i].filter(mine)) by {
                    let a = w.ladder[i].filter(mine);
                    assert(a.is_suffix_of(d[i].filter(mine)));
                    if i == b {
                        assert(d[b] == l[b].skip(1));
                        let whole = l[b].filter(mine);
                        let part = d[b].filter(mine);
                        assert(a =~= part.subrange(part.len() - a.len(), part.len() as int));
                        assert(a =~= whole.subrange(whole.len() - a.len(), whole.len() as int));
                    }
                }
            } else {
                lemma_filter_front(w.ladder[b], mine);
                assert(w.ladder[b].skip(1) =~= l[b].skip(1));
            }
        }
    }
}

/// Under `CancelBoth` an incoming order that is ended takes exactly one resting
/// order of its trader along, in the event before its own; everything else is
/// trades. One that is not ended takes none, and every resting order of the
/// trader but that one stands afterwards exactly as before.
#[verifier::spinoff_prover]
#[verifier::rlimit(40)]
pub proof fn law_cancel_both_takes_one_along(t: Taker, l: Ladder, remaining: u64)
    requires
        t.stp == SelfTradePrevention::CancelBoth,
    ensures
        ({
            let w = sweep(t, l, remaining);
            let n = w.events.len() as int;
            let mine = by_trader(t.trader.0);
            &&& w.ladder.len() == l.len()
            &&& w.killed ==> {
                &&& n >= 2
                &&& w.events[n - 1] is Cancelled
                &&& w.events[n - 2] is Cancelled
                &&& forall|j: int| 0 <= j < n - 2 ==> #[trigger] w.events[j] is Fill
                &&& exists|b: int|
                    {
                        &&& 0 <= b < l.len()
                        &&& (#[trigger] l[b]).filter(mine).len() > 0
                        &&& w.ladder[b].filter(mine) == l[b].filter(mine).skip(1)
                        &&& w.events[n - 2]->Cancelled_order_id.0 == l[b].filter(mine)[0].order_id
                        &&& forall|i: int|
                            0 <= i < l.len() && i != b ==> (#[trigger] w.ladder[i]).filter(mine)
                                == l[i].filter(mine)
                    }
            }
            &&& !w.killed ==> {
                &&& forall|j: int| 0 <= j < n ==> #[trigger] w.events[j] is Fill
                &&& forall|i: int|
                    0 <= i < l.len() ==> (#[trigger] w.ladder[i]).filter(mine) == l[i].filter(mine)
            }
        }),
    decreases order_total(l),
{
    let opp = t.side.opposite();
    let w = sweep(t, l, remaining);
    let n = w.events.len() as int;
    let mine = by_trader(t.trader.0);
    if let Some(b) = best_level(opp, l) {
        lemma_drop_head(opp, l, b);
        let d = drop_head(l, b);
        let maker = l[b][0];
        if remaining > 0 && t.reaches(maker) {
            lemma_filter_front(l[b], mine);
            if t.own(maker) {
                let all = l[b].filter(mine);
                assert(all.skip(1) =~= l[b].skip(1).filter(mine));
                assert(all[0] == maker);
                assert(w.ladder[b].filter(mine) == all.skip(1));
            } else if maker.remaining <= remaining {
                let r = (remaining - maker.remaining) as u64;
                let v = sweep(t, d, r);
                law_cancel_both_takes_one_along(t, d, r);
                assert(forall|j: int| 1 <= j < n ==> #[trigger] w.events[j] == v.events[j - 1]);
                assert forall|i: int| 0 <= i < l.len() implies (#[trigger] d[i]).filter(mine)
                    == l[i].filter(mine) by {
                    if i == b {
                        assert(d[b] == l[b].skip(1));
                    }
                }
                if w.killed {
                    let c = choose|c: int|
                        {
                            &&& 0 <= c < d.len()
                            &&& (#[trigger] d[c]).filter(mine).len() > 0
                            &&& v.ladder[c].filter(mine) == d[c].filter(mine).skip(1)
                            &&& v.events[v.events.len() - 2]->Cancelled_order_id.0 == d[c].filter(
                                mine,
                            )[0].order_id
                            &&& forall|i: int|
                                0 <= i < d.len() && i != c ==> (#[trigger] v.ladder[i]).filter(mine)
                                    == d[i].filter(mine)
                        };
                    assert(l[c].filter(mine) == d[c].filter(mine));
                    assert(w.events[n - 2] == v.events[v.events.len() - 2]);
                    assert forall|i: int| 0 <= i < l.len() && i != c implies (
                    #[trigger] w.ladder[i]).filter(mine) == l[i].filter(mine) by {
                        assert(v.ladder[i].filter(mine) == d[i].filter(mine));
                    }
                }
            } else {
                lemma_filter_front(w.ladder[b], mine);
                assert(w.ladder[b].skip(1) =~= l[b].skip(1));
            }
        }
    }
}

/// Without a self-trade rule everything that matching reports is a trade, and
/// nothing ends the incoming order.
pub proof fn law_no_rule_only_trades(t: Taker, l: Ladder, remaining: u64)
    requires
        t.stp == SelfTradePrevention::Disabled,
    ensures
        ({
            let w = sweep(t, l, remaining);
            &&& !w.killed
            &&& forall|j: int| 0 <= j < w.events.len() ==> #[trigger] w.events[j] is Fill
        }),
    decreases order_total(l),
{
    let opp = t.side.opposite();
    let w = sweep(t, l, remaining);
    if let Some(b) = best_level(opp, l) {
        lemma_drop_head(opp, l, b);
        let d = drop_head(l, b);
        let maker = l[b][0];
        if remaining > 0 && t.reaches(maker) && maker.remaining <= remaining {
            let r = (remaining - maker.remaining) as u64;
            law_no_rule_only_trades(t, d, r);
            let v = sweep(t, d, r);
            assert(forall|j: int|
                1 <= j < w.events.len() ==> #[trigger] w.events[j] == v.events[j - 1]);
        }
    }
}

/// Level `i` of a side has a better price than level `j`.
pub open spec fn better_level(s: Side, i: int, j: int) -> bool {
    match s {
        Side::Bid => i > j,
        Side::Ask => i < j,
    }
}

/// Best price first, and nobody passed over: where matching has touched a level,
/// no order is left at a better price.
pub proof fn law_better_prices_first(t: Taker, l: Ladder, remaining: u64, i: int, j: int)
    requires
        positive(l),
        0 <= i < l.len(),
        0 <= j < l.len(),
        better_level(t.side.opposite(), i, j),
        sweep(t, l, remaining).ladder[j] != l[j],
    ensures
        sweep(t, l, remaining).ladder[i].len() == 0,
    decreases order_total(l),
{
    let opp = t.side.opposite();
    let w = sweep(t, l, remaining);
    lemma_sweep_trims(t, l, remaining);
    if let Some(b) = best_level(opp, l) {
        lemma_drop_head(opp, l, b);
        lemma_drop_positive(l, b);
        assert(is_best_level(opp, l, b));
        let d = drop_head(l, b);
        let maker = l[b][0];
        if j == b {
            assert(l[i].len() == 0);
            assert(w.ladder[i].len() <= l[i].len());
        } else if remaining > 0 && t.reaches(maker) {
            assert(d[j] == l[j]);
            if t.own(maker) {
                if t.stp == SelfTradePrevention::CancelResting {
                    law_better_prices_first(t, d, remaining, i, j);
                }
            } else if maker.remaining <= remaining {
                law_better_prices_first(t, d, (remaining - maker.remaining) as u64, i, j);
            }
        }
    }
}

/// Oldest first: of every queue matching takes orders off the front, and
/// perhaps quantity off the one that is then in front; the others stand as
/// they stood.
pub proof fn law_oldest_first(t: Taker, l: Ladder, remaining: u64, i: int)
    requires
        positive(l),
        0 <= i < l.len(),
    ensures
        ({
            let q = l[i];
            let r = sweep(t, l, remaining).ladder[i];
            let gone = q.len() - r.len();
            &&& sweep(t, l, remaining).ladder.len() == l.len()
            &&& gone >= 0
            &&& r.len() > 0 ==> {
                &&& r[0] == (SnapOrder { remaining: r[0].remaining, ..q[gone] })
                &&& 0 < r[0].remaining <= q[gone].remaining
            }
            &&& forall|k: int| 1 <= k < r.len() ==> #[trigger] r[k] == q[gone + k]
        }),
    decreases order_total(l),
{
    let opp = t.side.opposite();
    let w = sweep(t, l, remaining);
    lemma_sweep_trims(t, l, remaining);
    assert(crate::laws::front_trimmed(w.ladder[i], l[i]));
    if let Some(b) = best_level(opp, l) {
        lemma_drop_head(opp, l, b);
        lemma_drop_positive(l, b);
        let d = drop_head(l, b);
        let maker = l[b][0];
        if remaining > 0 && t.reaches(maker) {
            if t.own(maker) {
                if t.stp == SelfTradePrevention::CancelResting {
                    law_oldest_first(t, d, remaining, i);
                }
            } else if maker.remaining <= remaining {
                law_oldest_first(t, d, (remaining - maker.remaining) as u64, i);
            }
        }
    }
}

/// Matching goes on as long as it can: an incoming order that is not ended and
/// still wants something leaves nobody within its limit on the other side.
pub proof fn law_matching_goes_on(m: BookModel, t: Taker, qty: u64)
    requires
        m.wf(),
    ensures
        ({
            let w = sweep(t, m.side(t.side.opposite()), qty);
            !w.killed && w.remaining > 0 ==> forall|i: int, k: int|
                0 <= i < w.ladder.len() && 0 <= k < (#[trigger] w.ladder[i]).len()
                    ==> !within_limit(t, (#[trigger] w.ladder[i][k]).price)
        }),
{
    let opp = t.side.opposite();
    let w = sweep(t, m.side(opp), qty);
    lemma_wf_positive(m, opp);
    lemma_sweep_trims(t, m.side(opp), qty);
    lemma_trimmed_wf(m, opp, w.ladder);
    lemma_sweep_exhausts(t, m.side(opp), qty);
    let n = m.with_side(opp, w.ladder);
    if !w.killed && w.remaining > 0 {
        assert forall|i: int, k: int|
            0 <= i < w.ladder.len() && 0 <= k < (#[trigger] w.ladder[i]).len() implies !within_limit(
            t,
            (#[trigger] w.ladder[i][k]).price,
        ) by {
            lemma_best_exists(opp, w.ladder, i);
            let b = best_level(opp, w.ladder)->0;
            assert(is_best_level(opp, w.ladder, b));
            assert(n.at(opp, i, k) && n.order(opp, i, k) == w.ladder[i][k]);
            assert(n.at(opp, b, 0) && n.order(opp, b, 0) == w.ladder[b][0]);
            m.cfg.law_grid_monotone(i, b);
            m.cfg.law_grid_monotone(b, i);
        }
    }
}

/// Where `CancelAggressor` ends an incoming order, an order of its trader
/// within its limit stands in front of the other side.
pub proof fn law_cancel_aggressor_has_a_cause(t: Taker, l: Ladder, remaining: u64)
    requires
        t.stp == SelfTradePrevention::CancelAggressor,
        sweep(t, l, remaining).killed,
    ensures
        ({
            let w = sweep(t, l, remaining);
            exists|i: int|
                {
                    &&& 0 <= i < w.ladder.len()
                    &&& (#[trigger] w.ladder[i]).len() > 0
                    &&& w.ladder[i][0].trader == t.trader.0
                    &&& within_limit(t, w.ladder[i][0].price)
                }
        }),
    decreases order_total(l),
{
    let opp = t.side.opposite();
    let w = sweep(t, l, remaining);
    let b = best_level(opp, l)->0;
    lemma_drop_head(opp, l, b);
    let maker = l[b][0];
    if t.own(maker) {
        assert(w.ladder[b][0].trader == t.trader.0);
    } else {
        law_cancel_aggressor_has_a_cause(
            t,
            drop_head(l, b),
            (remaining - maker.remaining) as u64,
        );
    }
}

/// What matching can fill is available.
proof fn lemma_filled_is_available(t: Taker, l: Ladder, remaining: u64)
    requires
        sweep(t, l, remaining).remaining == 0,
        !sweep(t, l, remaining).killed,
    ensures
        available(t, l) >= remaining,
    decreases order_total(l),
{
    let opp = t.side.opposite();
    if let Some(b) = best_level(opp, l) {
        lemma_drop_head(opp, l, b);
        let d = drop_head(l, b);
        let maker = l[b][0];
        if remaining > 0 && t.reaches(maker) {
            if t.own(maker) {
                lemma_filled_is_available(t, d, remaining);
            } else if maker.remaining <= remaining {
                lemma_filled_is_available(t, d, (remaining - maker.remaining) as u64);
            }
        }
    }
}

/// What matching fills of an incoming order is all of it exactly where nothing
/// is left and no rule ended it.
proof fn lemma_all_filled(m: BookModel, t: Taker, qty: u64)
    requires
        m.wf(),
        !m.has(t.id.0),
    ensures
        ({
            let w = sweep(t, m.side(t.side.opposite()), qty);
            &&& filled(w.events, t.id.0) <= qty
            &&& filled(w.events, t.id.0) == qty <==> w.remaining == 0 && !w.killed
        }),
{
    let opp = t.side.opposite();
    let l = m.side(opp);
    let w = sweep(t, l, qty);
    let u = t.id.0;
    lemma_wf_positive(m, opp);
    lemma_sweep_conserves(t, l, qty, u);
    lemma_resting_none(m, u);
    law_matching_concerns(t, l, qty);
    assert forall|i: int, k: int| 0 <= i < l.len() && 0 <= k < (#[trigger] l[i]).len() implies (
    #[trigger] l[i][k]).order_id != u by {
        assert(m.at(opp, i, k) && m.order(opp, i, k) == l[i][k]);
    }
    lemma_sweep_spares(t, l, qty);
    lemma_sweep_trims(t, l, qty);
    let n = m.with_side(opp, w.ladder);
    assert(!n.has(u)) by {
        assert forall|s: Side, i: int, k: int| n.at(s, i, k) implies (#[trigger] n.order(
            s,
            i,
            k,
        )).order_id != u by {
            if s == opp {
                let from = k + (l[i].len() - w.ladder[i].len());
                assert(w.ladder[i][k].order_id == l[i][from].order_id);
            } else {
                assert(m.at(s, i, k) && m.order(s, i, k) == n.order(s, i, k));
            }
        }
    }
    lemma_resting_none(n, u);
}

/// An immediate-or-cancel order trades no more than it asks for.
pub proof fn lemma_ioc_filled_at_most(m: BookModel, t: Taker, qty: Qty)
    requires
        m.wf(),
        !m.has(t.id.0),
    ensures
        filled(step_new(m, t, qty, TimeInForce::Ioc).events, t.id.0) <= qty.0,
{
    let w = sweep(t, m.side(t.side.opposite()), qty.0);
    let u = t.id.0;
    let r = step_new(m, t, qty, TimeInForce::Ioc).events;
    let ack = OutputEvent::Ack { seq: t.seq, order_id: t.id };
    let cut = t.kill(u, w.remaining, CancelReason::Ioc);
    let dummy = InputEvent::Cancel { seq: t.seq, order_id: t.id, trader: t.trader };
    lemma_all_filled(m, t, qty.0);
    lemma_single(dummy, ack, u);
    lemma_single(dummy, cut, u);
    lemma_single(dummy, r[0], u);
    lemma_filled_concat(w.events, seq![cut], u);
    assert(w.events.push(cut) =~= w.events + seq![cut]);
    lemma_filled_concat(seq![ack], w.events, u);
    lemma_filled_concat(seq![ack], w.events.push(cut), u);
    if r[0] is Rejected {
        assert(r =~= seq![r[0]]);
    }
}

/// All or nothing: a fill-or-kill order does what the same order would do as
/// immediate-or-cancel, where that would trade to the last lot; and otherwise
/// it is refused for exactly that reason, and the book left alone. Under every
/// self-trade rule.
pub proof fn law_fill_or_kill_is_all_or_nothing(m: BookModel, t: Taker, qty: Qty)
    requires
        m.wf(),
        qty.0 > 0,
        !m.has(t.id.0),
        m.cfg.level_of(t.price) is Some,
        m.live() < m.cfg.max_live_orders,
    ensures
        ({
            let fok = step_new(m, t, qty, TimeInForce::Fok);
            let ioc = step_new(m, t, qty, TimeInForce::Ioc);
            if filled(ioc.events, t.id.0) == qty.0 {
                fok.book == ioc.book && fok.events == ioc.events
            } else {
                &&& fok.book == m
                &&& fok.events == seq![
                    OutputEvent::Rejected {
                        seq: t.seq,
                        order_id: t.id,
                        reason: RejectReason::FokUnfillable,
                    },
                ]
            }
        }),
        ({
            let w = sweep(t, m.side(t.side.opposite()), qty.0);
            step_new(m, t, qty, TimeInForce::Fok).events[0] is Ack <==> w.remaining == 0
                && !w.killed
        }),
{
    let l = m.side(t.side.opposite());
    let w = sweep(t, l, qty.0);
    let u = t.id.0;
    let ioc = step_new(m, t, qty, TimeInForce::Ioc);
    let ack = OutputEvent::Ack { seq: t.seq, order_id: t.id };
    let cut = t.kill(u, w.remaining, CancelReason::Ioc);
    let dummy = InputEvent::Cancel { seq: t.seq, order_id: t.id, trader: t.trader };
    lemma_all_filled(m, t, qty.0);
    law_fill_or_kill(m, t, qty);
    if w.remaining == 0 && !w.killed {
        lemma_filled_is_available(t, l, qty.0);
    }
    lemma_single(dummy, ack, u);
    lemma_single(dummy, cut, u);
    lemma_filled_concat(w.events, seq![cut], u);
    assert(w.events.push(cut) =~= w.events + seq![cut]);
    lemma_filled_concat(seq![ack], w.events, u);
    lemma_filled_concat(seq![ack], w.events.push(cut), u);
}

} // verus!
