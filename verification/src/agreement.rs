//! The two engines agree: fed the same instructions in the order of their
//! sequence numbers, the fast engine and the oracle answer alike, hold the
//! same orders and hash the same.

use crate::config::BookConfig;
use crate::events::InputEvent;
use crate::hash::book_hash;
use crate::laws::{
    law_empty_valid, law_run_valid, lemma_removed_wf, lemma_sweep_trims, lemma_trimmed_wf,
    lemma_wf_positive, run,
};
use crate::model::{
    available, best_level, drop_head, enter, lemma_total_update, other_than, rung, step, sweep,
    BookModel, Ladder, Taker,
};
use crate::priority::{
    flat, flat_range, lemma_flat_around, lemma_flat_head, lemma_flat_len, lemma_flat_member,
    lemma_flat_none, lemma_flat_place, lemma_flat_without, lemma_range_empty,
};
use crate::reference::{
    lemma_first_exists, lemma_rank_unique, meanings, not_id, on_shelf, rank, ref_available,
    ref_enter, ref_step, ref_sweep, RefModel, RefOrder, RefStep,
};
use crate::snapshot::SnapOrder;
use crate::types::{OrderId, Price, Side, TimeInForce};
use vstd::prelude::*;

verus! {

/// The oracle holds the orders of the book, in price-time priority.
pub open spec fn agree(r: RefModel, m: BookModel) -> bool {
    &&& r.cfg == m.cfg
    &&& meanings(r.bids) == flat(Side::Bid, m.bids)
    &&& meanings(r.asks) == flat(Side::Ask, m.asks)
}

/// Every order of a list was placed by an instruction up to number `n`.
pub open spec fn placed_by(q: Seq<RefOrder>, n: u64) -> bool {
    forall|j: int| 0 <= j < q.len() ==> (#[trigger] q[j]).seq <= n
}

/// Every order of the oracle was placed by an instruction up to number `n`.
pub open spec fn all_placed_by(r: RefModel, n: u64) -> bool {
    placed_by(r.bids, n) && placed_by(r.asks, n)
}

/// Meeting the front order and meeting the oldest order of the best level is
/// the same.
proof fn lemma_sweeps_agree(t: Taker, q: Seq<RefOrder>, l: Ladder, remaining: u64, n: u64)
    requires
        meanings(q) == flat(t.side.opposite(), l),
        placed_by(q, n),
    ensures
        ({
            let a = ref_sweep(t, q, remaining);
            let b = sweep(t, l, remaining);
            &&& a.remaining == b.remaining
            &&& a.killed == b.killed
            &&& a.events == b.events
            &&& meanings(a.rest) == flat(t.side.opposite(), b.ladder)
            &&& placed_by(a.rest, n)
        }),
    decreases q.len(),
{
    let opp = t.side.opposite();
    lemma_flat_none(opp, l);
    if q.len() > 0 {
        let b = best_level(opp, l)->0;
        let maker = q[0];
        assert(meanings(q)[0] == maker.meaning());
        let left = RefOrder { remaining: (maker.remaining - remaining) as u64, ..maker };
        lemma_flat_head(opp, l, b, left.meaning());
        let d = drop_head(l, b);
        assert(meanings(q.skip(1)) =~= meanings(q).skip(1));
        assert(meanings(q.update(0, left)) =~= meanings(q).update(0, left.meaning()));
        assert(placed_by(q.skip(1), n)) by {
            assert forall|j: int| 0 <= j < q.skip(1).len() implies (#[trigger] q.skip(1)[j]).seq
                <= n by {
                assert(q.skip(1)[j] == q[j + 1]);
            }
        }
        lemma_sweeps_agree(t, q.skip(1), d, remaining, n);
        if maker.remaining <= remaining {
            lemma_sweeps_agree(t, q.skip(1), d, (remaining - maker.remaining) as u64, n);
        }
    }
}

/// Both engines find the same quantity available.
proof fn lemma_available_agree(t: Taker, q: Seq<RefOrder>, l: Ladder)
    requires
        meanings(q) == flat(t.side.opposite(), l),
    ensures
        ref_available(t, q) == available(t, l),
    decreases q.len(),
{
    let opp = t.side.opposite();
    lemma_flat_none(opp, l);
    if q.len() > 0 {
        let b = best_level(opp, l)->0;
        assert(meanings(q)[0] == q[0].meaning());
        lemma_flat_head(opp, l, b, l[b][0]);
        assert(meanings(q.skip(1)) =~= meanings(q).skip(1));
        lemma_available_agree(t, q.skip(1), drop_head(l, b));
    }
}

/// Both engines hold equally many orders.
proof fn lemma_live_agree(r: RefModel, m: BookModel)
    requires
        agree(r, m),
    ensures
        r.live() == m.live(),
{
    lemma_flat_len(Side::Bid, m.bids);
    lemma_flat_len(Side::Ask, m.asks);
    assert(meanings(r.bids).len() == r.bids.len());
    assert(meanings(r.asks).len() == r.asks.len());
}

/// Every order of the oracle stands somewhere on the book.
proof fn lemma_on_book(r: RefModel, m: BookModel, s: Side, j: int) -> (p: (int, int))
    requires
        agree(r, m),
        0 <= j < r.side(s).len(),
    ensures
        m.at(s, p.0, p.1),
        m.order(s, p.0, p.1) == r.side(s)[j].meaning(),
{
    let q = meanings(r.side(s));
    assert(q == flat(s, m.side(s)));
    assert(q[j] == r.side(s)[j].meaning());
    lemma_flat_member(s, m.side(s), 0, m.side(s).len() as int, j)
}

/// Both engines find the same order for an id.
proof fn lemma_find_agree(r: RefModel, m: BookModel, id: OrderId)
    requires
        agree(r, m),
        m.unique_ids(),
    ensures
        r.find(id) is Some <==> m.has(id.0),
        r.find(id) matches Some(o) ==> o.meaning() == m.find(id.0) && o.id == id,
{
    let q = r.bids + r.asks;
    lemma_first_exists(q, id);
    if r.find(id) is Some {
        let o = r.find(id)->0;
        let k = q.index_of(o);
        assert(q.contains(o));
        let s = if k < r.bids.len() {
            Side::Bid
        } else {
            Side::Ask
        };
        let j = if k < r.bids.len() {
            k
        } else {
            k - r.bids.len()
        };
        assert(r.side(s)[j] == o);
        let p = lemma_on_book(r, m, s, j);
        assert(m.order(s, p.0, p.1).order_id == id.0);
        let (s2, i2, k2) = choose|s2: Side, i2: int, k2: int|
            #![trigger m.order(s2, i2, k2)]
            m.at(s2, i2, k2) && m.order(s2, i2, k2).order_id == id.0;
        assert(m.order(s2, i2, k2).order_id == m.order(s, p.0, p.1).order_id);
    }
    if m.has(id.0) {
        let (s, i, k) = choose|s: Side, i: int, k: int|
            #![trigger m.order(s, i, k)]
            m.at(s, i, k) && m.order(s, i, k).order_id == id.0;
        let j = lemma_flat_place(s, m.side(s), i, k);
        assert(meanings(r.side(s))[j] == r.side(s)[j].meaning());
        let at = if s == Side::Bid {
            j
        } else {
            j + r.bids.len()
        };
        assert(q[at] == r.side(s)[j]);
        assert(q[at].id == id);
    }
}

/// Filtering by id and taking the meanings commute.
proof fn lemma_meanings_filter(q: Seq<RefOrder>, id: OrderId, n: u64)
    ensures
        meanings(q.filter(not_id(id))) == meanings(q).filter(other_than(id.0)),
        placed_by(q, n) ==> placed_by(q.filter(not_id(id)), n),
    decreases q.len(),
{
    reveal(Seq::filter);
    if q.len() == 0 {
        assert(meanings(q.filter(not_id(id))) =~= meanings(q).filter(other_than(id.0)));
    } else {
        let d = q.drop_last();
        lemma_meanings_filter(d, id, n);
        assert(meanings(q).drop_last() =~= meanings(d));
        assert(meanings(q).last() == q.last().meaning());
        let f = d.filter(not_id(id));
        if q.last().id != id {
            assert(meanings(f.push(q.last())) =~= meanings(f).push(q.last().meaning()));
        }
        if placed_by(q, n) {
            assert forall|j: int| 0 <= j < d.len() implies (#[trigger] d[j]).seq <= n by {
                assert(d[j] == q[j]);
            }
            assert(q[q.len() - 1].seq <= n);
        }
    }
}

/// Removing keeps the agreement.
proof fn lemma_removed_agree(r: RefModel, m: BookModel, id: OrderId, n: u64)
    requires
        agree(r, m),
        all_placed_by(r, n),
    ensures
        agree(r.removed(id), m.removed(id.0)),
        all_placed_by(r.removed(id), n),
{
    lemma_meanings_filter(r.bids, id, n);
    lemma_meanings_filter(r.asks, id, n);
    lemma_flat_without(Side::Bid, m.bids, id.0, 0);
    lemma_flat_without(Side::Ask, m.asks, id.0, 0);
}

/// Putting a newcomer by priority and putting it behind its price level is
/// the same.
proof fn lemma_rested_agree(r: RefModel, m: BookModel, o: RefOrder, i: int)
    requires
        agree(r, m),
        m.wf(),
        all_placed_by(r, o.seq),
        m.cfg.on_level(o.price, i),
    ensures
        agree(r.rested(o), m.rested(o.meaning())),
        all_placed_by(r.rested(o), o.seq),
{
    let s = o.side;
    let l = m.side(s);
    let q = r.side(s);
    let n = l.len() as int;
    let k = rung(s, n, i);
    let front = flat_range(s, l, 0, k);
    let back = flat_range(s, l, k + 1, n);
    m.cfg.lemma_level_of(o.price);
    lemma_flat_around(s, l, i, l[i].push(o.meaning()));
    let at = front.len() + l[i].len();
    let all = meanings(q);
    assert(all == front + l[i] + back);
    assert forall|j: int| 0 <= j < q.len() implies all[j] == (#[trigger] q[j]).meaning() by {}
    assert forall|j: int| 0 <= j < at implies !o.precedes(#[trigger] q[j], s) by {
        assert(all[j] == q[j].meaning());
        assert(q[j].seq <= o.seq);
        if j < front.len() {
            let p = lemma_flat_member(s, l, 0, k, j);
            assert(m.at(s, p.0, p.1) && m.order(s, p.0, p.1) == l[p.0][p.1]);
            m.cfg.law_grid_monotone(i, p.0);
            m.cfg.law_grid_monotone(p.0, i);
        } else {
            let h = j - front.len();
            assert(m.at(s, i, h) && m.order(s, i, h) == l[i][h]);
        }
    }
    if at < q.len() {
        assert(all[at as int] == q[at as int].meaning());
        let p = lemma_flat_member(s, l, k + 1, n, 0);
        assert(m.at(s, p.0, p.1) && m.order(s, p.0, p.1) == l[p.0][p.1]);
        m.cfg.law_grid_monotone(i, p.0);
        m.cfg.law_grid_monotone(p.0, i);
    }
    lemma_rank_unique(q, o, s, at as int);
    let g = q.insert(at as int, o);
    assert(meanings(g) =~= front + l[i].push(o.meaning()) + back);
    assert forall|j: int| 0 <= j < g.len() implies (#[trigger] g[j]).seq <= o.seq by {
        if j < at {
            assert(g[j] == q[j]);
        } else if j > at {
            assert(g[j] == q[j - 1]);
        }
    }
}

/// An accepted order does the same to both engines.
proof fn lemma_enter_agree(r: RefModel, m: BookModel, t: Taker, qty: u64, tif: TimeInForce)
    requires
        agree(r, m),
        m.wf(),
        all_placed_by(r, t.seq.0),
        m.cfg.level_of(t.price) is Some,
    ensures
        agree(ref_enter(r, t, qty, tif).book, enter(m, t, qty, tif).book),
        all_placed_by(ref_enter(r, t, qty, tif).book, t.seq.0),
        ref_enter(r, t, qty, tif).events == enter(m, t, qty, tif).events,
{
    let opp = t.side.opposite();
    let a = ref_sweep(t, r.side(opp), qty);
    let b = sweep(t, m.side(opp), qty);
    lemma_sweeps_agree(t, r.side(opp), m.side(opp), qty, t.seq.0);
    lemma_wf_positive(m, opp);
    lemma_sweep_trims(t, m.side(opp), qty);
    lemma_trimmed_wf(m, opp, b.ladder);
    let rc = r.with_side(opp, a.rest);
    let mc = m.with_side(opp, b.ladder);
    assert(agree(rc, mc));
    if !a.killed && a.remaining > 0 && tif == TimeInForce::Gtc {
        let o = RefOrder {
            id: t.id,
            trader: t.trader,
            side: t.side,
            price: t.price,
            remaining: a.remaining,
            original: qty,
            seq: t.seq.0,
            stp: t.stp,
        };
        m.cfg.lemma_level_of(t.price);
        lemma_rested_agree(rc, mc, o, m.cfg.level_of(t.price)->0 as int);
    }
}

/// One instruction: both engines answer alike and stay in agreement, provided
/// that no resting order of the oracle has a later sequence number.
pub proof fn law_engines_agree(r: RefModel, m: BookModel, ev: InputEvent)
    requires
        agree(r, m),
        m.wf(),
        all_placed_by(r, ev.seq().0),
    ensures
        ref_step(r, ev).events == step(m, ev).events,
        agree(ref_step(r, ev).book, step(m, ev).book),
        all_placed_by(ref_step(r, ev).book, ev.seq().0),
{
    lemma_live_agree(r, m);
    match ev {
        InputEvent::New { seq, order_id, trader, side, price, qty, tif, stp } => {
            let t = Taker { seq, id: order_id, trader, side, price, stp };
            lemma_find_agree(r, m, order_id);
            lemma_available_agree(t, r.side(side.opposite()), m.side(side.opposite()));
            if m.cfg.level_of(price) is Some {
                lemma_enter_agree(r, m, t, qty.0, tif);
            }
        },
        InputEvent::Cancel { seq, order_id, trader } => {
            lemma_find_agree(r, m, order_id);
            lemma_removed_agree(r, m, order_id, seq.0);
        },
        InputEvent::Modify { seq, order_id, trader, new_price, new_qty } => {
            lemma_find_agree(r, m, order_id);
            lemma_removed_agree(r, m, order_id, seq.0);
            if m.has(order_id.0) && m.cfg.level_of(new_price) is Some {
                lemma_removed_wf(m, order_id.0);
                let o = m.find(order_id.0);
                let t = Taker { seq, id: order_id, trader, side: o.side, price: new_price, stp: o.stp };
                lemma_enter_agree(
                    r.removed(order_id),
                    m.removed(order_id.0),
                    t,
                    new_qty.0,
                    TimeInForce::Gtc,
                );
            }
        },
    }
}

/// Whatever its sequence number, an instruction is answered alike by both
/// engines where they hold the same orders. Only where a newcomer comes to rest
/// does the number matter to what they hold afterwards.
pub proof fn law_engines_answer_alike(r: RefModel, m: BookModel, ev: InputEvent)
    requires
        agree(r, m),
        m.wf(),
    ensures
        ref_step(r, ev).events == step(m, ev).events,
        ref_step(r, ev).book.live() == step(m, ev).book.live(),
        ev is Cancel || step(m, ev).events[0] is Rejected || (ev matches InputEvent::New {
            tif,
            ..
        } && tif != TimeInForce::Gtc) ==> agree(ref_step(r, ev).book, step(m, ev).book),
{
    lemma_live_agree(r, m);
    match ev {
        InputEvent::New { seq, order_id, trader, side, price, qty, tif, stp } => {
            let t = Taker { seq, id: order_id, trader, side, price, stp };
            lemma_find_agree(r, m, order_id);
            lemma_available_agree(t, r.side(side.opposite()), m.side(side.opposite()));
            if m.cfg.level_of(price) is Some {
                lemma_enter_alike(r, m, t, qty.0, tif);
            }
        },
        InputEvent::Cancel { seq, order_id, trader } => {
            lemma_find_agree(r, m, order_id);
            lemma_removed_agree(r, m, order_id, u64::MAX);
            lemma_live_agree(r.removed(order_id), m.removed(order_id.0));
        },
        InputEvent::Modify { seq, order_id, trader, new_price, new_qty } => {
            lemma_find_agree(r, m, order_id);
            lemma_removed_agree(r, m, order_id, u64::MAX);
            if m.has(order_id.0) && m.cfg.level_of(new_price) is Some {
                lemma_removed_wf(m, order_id.0);
                let o = m.find(order_id.0);
                let t = Taker { seq, id: order_id, trader, side: o.side, price: new_price, stp: o.stp };
                lemma_enter_alike(
                    r.removed(order_id),
                    m.removed(order_id.0),
                    t,
                    new_qty.0,
                    TimeInForce::Gtc,
                );
            }
        },
    }
}

/// An accepted order is answered alike.
proof fn lemma_enter_alike(r: RefModel, m: BookModel, t: Taker, qty: u64, tif: TimeInForce)
    requires
        agree(r, m),
        m.wf(),
        m.cfg.level_of(t.price) is Some,
    ensures
        ref_enter(r, t, qty, tif).events == enter(m, t, qty, tif).events,
        ref_enter(r, t, qty, tif).book.live() == enter(m, t, qty, tif).book.live(),
        tif != TimeInForce::Gtc ==> agree(
            ref_enter(r, t, qty, tif).book,
            enter(m, t, qty, tif).book,
        ),
{
    let opp = t.side.opposite();
    let a = ref_sweep(t, r.side(opp), qty);
    let b = sweep(t, m.side(opp), qty);
    lemma_sweeps_agree(t, r.side(opp), m.side(opp), qty, u64::MAX);
    lemma_wf_positive(m, opp);
    lemma_sweep_trims(t, m.side(opp), qty);
    lemma_trimmed_wf(m, opp, b.ladder);
    let rc = r.with_side(opp, a.rest);
    let mc = m.with_side(opp, b.ladder);
    assert(agree(rc, mc));
    lemma_live_agree(rc, mc);
    if !a.killed && a.remaining > 0 && tif == TimeInForce::Gtc {
        let o = RefOrder {
            id: t.id,
            trader: t.trader,
            side: t.side,
            price: t.price,
            remaining: a.remaining,
            original: qty,
            seq: t.seq.0,
            stp: t.stp,
        };
        m.cfg.lemma_level_of(t.price);
        let i = m.cfg.level_of(t.price)->0 as int;
        let l = mc.side(t.side);
        lemma_rank_bounds(rc.side(t.side), o, t.side);
        lemma_total_update(l, i, l[i].push(o.meaning()));
    }
}

/// The rank of an order is where the first order stands that it has priority
/// over.
proof fn lemma_rank_bounds(q: Seq<RefOrder>, o: RefOrder, s: Side)
    ensures
        0 <= rank(q, o, s) <= q.len(),
        forall|j: int| 0 <= j < rank(q, o, s) ==> !o.precedes(#[trigger] q[j], s),
        rank(q, o, s) < q.len() ==> o.precedes(q[rank(q, o, s)], s),
    decreases q.len(),
{
    if q.len() > 0 && !o.precedes(q[0], s) {
        let t = q.skip(1);
        lemma_rank_bounds(t, o, s);
        assert forall|j: int| 0 <= j < rank(q, o, s) implies !o.precedes(#[trigger] q[j], s) by {
            if j > 0 {
                assert(t[j - 1] == q[j]);
            }
        }
        if rank(q, o, s) < q.len() {
            assert(t[rank(t, o, s)] == q[rank(q, o, s)]);
        }
    }
}

/// Number `k` of a queue is the place of `o`: nobody before it has a worse price,
/// or the same price and a later sequence number, and the one behind it has.
pub open spec fn stands_behind(q: Seq<RefOrder>, o: RefOrder, k: int) -> bool {
    &&& forall|j: int|
        0 <= j < k ==> match o.side {
            Side::Bid => (#[trigger] q[j]).price.0 >= o.price.0,
            Side::Ask => q[j].price.0 <= o.price.0,
        } && (q[j].price.0 == o.price.0 ==> q[j].seq <= o.seq)
    &&& k < q.len() ==> match o.side {
        Side::Bid => q[k].price.0 <= o.price.0,
        Side::Ask => q[k].price.0 >= o.price.0,
    } && (q[k].price.0 == o.price.0 ==> q[k].seq > o.seq)
}

/// Where the oracle puts a newcomer: before the first order that has a worse
/// price, or the same price and a later sequence number, and behind all those
/// before that. Nobody else moves.
pub proof fn law_oracle_places_by_priority(r: RefModel, o: RefOrder)
    ensures
        exists|k: int|
            {
                &&& 0 <= k <= r.side(o.side).len()
                &&& #[trigger] r.side(o.side).insert(k, o) == r.rested(o).side(o.side)
                &&& stands_behind(r.side(o.side), o, k)
            },
        r.rested(o).side(o.side.opposite()) == r.side(o.side.opposite()),
        r.rested(o).cfg == r.cfg,
{
    let q = r.side(o.side);
    let k = rank(q, o, o.side);
    lemma_rank_bounds(q, o, o.side);
    assert(q.insert(k, o) == r.rested(o).side(o.side));
    assert forall|j: int| 0 <= j < k implies match o.side {
        Side::Bid => (#[trigger] q[j]).price.0 >= o.price.0,
        Side::Ask => q[j].price.0 <= o.price.0,
    } && (q[j].price.0 == o.price.0 ==> q[j].seq <= o.seq) by {
        assert(!o.precedes(q[j], o.side));
    }
}

/// A run of the oracle.
pub open spec fn ref_run(r: RefModel, evs: Seq<InputEvent>) -> RefStep
    decreases evs.len(),
{
    if evs.len() == 0 {
        RefStep { book: r, events: Seq::empty() }
    } else {
        let before = ref_run(r, evs.drop_last());
        let last = ref_step(before.book, evs.last());
        RefStep { book: last.book, events: before.events + last.events }
    }
}

/// The instructions come in the order of their sequence numbers.
pub open spec fn in_order(evs: Seq<InputEvent>) -> bool {
    forall|i: int, j: int|
        0 <= i <= j < evs.len() ==> (#[trigger] evs[i]).seq().0 <= (#[trigger] evs[j]).seq().0
}

/// A whole session from an empty book: both engines produce the same output
/// stream, hold the same orders and hash the same.
pub proof fn law_sessions_agree(cfg: BookConfig, evs: Seq<InputEvent>)
    requires
        cfg.wf(),
        in_order(evs),
    ensures
        ({
            let a = ref_run(RefModel::empty(cfg), evs);
            let b = run(BookModel::empty(cfg), evs);
            &&& a.events == b.events
            &&& agree(a.book, b.book)
            &&& a.book.shelved() == b.book
            &&& book_hash(a.book.shelved()) == book_hash(b.book)
        }),
{
    lemma_sessions(cfg, evs);
    law_empty_valid(cfg);
    law_run_valid(BookModel::empty(cfg), evs);
    law_agreement_is_equality(
        ref_run(RefModel::empty(cfg), evs).book,
        run(BookModel::empty(cfg), evs).book,
    );
}

proof fn lemma_sessions(cfg: BookConfig, evs: Seq<InputEvent>)
    requires
        cfg.wf(),
        in_order(evs),
    ensures
        ({
            let a = ref_run(RefModel::empty(cfg), evs);
            let b = run(BookModel::empty(cfg), evs);
            &&& a.events == b.events
            &&& agree(a.book, b.book)
            &&& evs.len() > 0 ==> all_placed_by(a.book, evs.last().seq().0)
            &&& evs.len() == 0 ==> a.book == RefModel::empty(cfg)
        }),
    decreases evs.len(),
{
    let r0 = RefModel::empty(cfg);
    let m0 = BookModel::empty(cfg);
    if evs.len() == 0 {
        lemma_range_empty(Side::Bid, m0.bids, 0, m0.bids.len() as int);
        lemma_range_empty(Side::Ask, m0.asks, 0, m0.asks.len() as int);
        assert(meanings(r0.bids) =~= flat(Side::Bid, m0.bids));
        assert(meanings(r0.asks) =~= flat(Side::Ask, m0.asks));
    } else {
        let d = evs.drop_last();
        assert forall|i: int, j: int| 0 <= i <= j < d.len() implies (#[trigger] d[i]).seq().0 <= (
        #[trigger] d[j]).seq().0 by {
            assert(d[i] == evs[i] && d[j] == evs[j]);
        }
        lemma_sessions(cfg, d);
        law_empty_valid(cfg);
        law_run_valid(m0, d);
        let a = ref_run(r0, d);
        let last = evs.last().seq().0;
        if d.len() > 0 {
            let before = evs[d.len() - 1].seq().0;
            assert(d.last() == evs[d.len() - 1]);
            assert(before <= evs[evs.len() - 1].seq().0);
            assert forall|j: int| 0 <= j < a.book.bids.len() implies (
            #[trigger] a.book.bids[j]).seq <= last by {
                assert(a.book.bids[j].seq <= before);
            }
            assert forall|j: int| 0 <= j < a.book.asks.len() implies (
            #[trigger] a.book.asks[j]).seq <= last by {
                assert(a.book.asks[j].seq <= before);
            }
        }
        law_engines_agree(a.book, run(m0, d).book, evs.last());
    }
}

/// The meanings on one shelf, in two ways.
spec fn at_level(cfg: BookConfig, i: int) -> spec_fn(SnapOrder) -> bool {
    |o: SnapOrder| cfg.level_of(Price(o.price)) == Some(i as u32)
}

proof fn lemma_shelf_filter(q: Seq<RefOrder>, cfg: BookConfig, i: int)
    ensures
        meanings(q.filter(on_shelf(cfg, i))) == meanings(q).filter(at_level(cfg, i)),
    decreases q.len(),
{
    reveal(Seq::filter);
    let p = on_shelf(cfg, i);
    let g = at_level(cfg, i);
    if q.len() == 0 {
        assert(meanings(q.filter(p)) =~= meanings(q).filter(g));
    } else {
        let d = q.drop_last();
        lemma_shelf_filter(d, cfg, i);
        assert(meanings(q).drop_last() =~= meanings(d));
        assert(meanings(q).last() == q.last().meaning());
        assert(Price(q.last().meaning().price) == q.last().price);
        if p(q.last()) {
            assert(meanings(d.filter(p).push(q.last())) =~= meanings(d.filter(p)).push(
                q.last().meaning(),
            ));
        }
    }
}

proof fn lemma_filter_all(q: Seq<SnapOrder>, p: spec_fn(SnapOrder) -> bool, keep: bool)
    requires
        forall|k: int| 0 <= k < q.len() ==> p(#[trigger] q[k]) == keep,
    ensures
        q.filter(p) == (if keep {
            q
        } else {
            Seq::empty()
        }),
    decreases q.len(),
{
    reveal(Seq::filter);
    if q.len() > 0 {
        let d = q.drop_last();
        assert forall|k: int| 0 <= k < d.len() implies p(#[trigger] d[k]) == keep by {
            assert(d[k] == q[k]);
        }
        lemma_filter_all(d, p, keep);
        assert(p(q[q.len() - 1]) == keep);
        assert(d.push(q.last()) =~= q);
    } else {
        assert(q =~= Seq::empty());
    }
}

/// Filtering a side by level gives the queue of that level.
proof fn lemma_flat_shelf(m: BookModel, s: Side, i: int, k: int)
    requires
        m.wf(),
        0 <= i < m.side(s).len(),
        0 <= k <= m.side(s).len(),
    ensures
        flat_range(s, m.side(s), k, m.side(s).len() as int).filter(at_level(m.cfg, i)) == (if k
            <= rung(s, m.side(s).len() as int, i) {
            m.side(s)[i]
        } else {
            Seq::empty()
        }),
    decreases m.side(s).len() - k,
{
    let l = m.side(s);
    let n = l.len() as int;
    let p = at_level(m.cfg, i);
    if k == n {
        reveal(Seq::filter);
        assert(flat_range(s, l, k, n).filter(p) =~= Seq::empty());
    } else {
        lemma_flat_shelf(m, s, i, k + 1);
        let j = rung(s, n, k);
        assert forall|h: int| 0 <= h < l[j].len() implies p(#[trigger] l[j][h]) == (j == i) by {
            assert(m.at(s, j, h) && m.order(s, j, h) == l[j][h]);
            m.cfg.lemma_level_of(Price(l[j][h].price));
            assert(m.cfg.on_level(Price(l[j][h].price), j));
        }
        lemma_filter_all(l[j], p, j == i);
        Seq::filter_distributes_over_add(l[j], flat_range(s, l, k + 1, n), p);
        if j == i {
            assert(l[i] + Seq::<SnapOrder>::empty() =~= l[i]);
        } else {
            assert(Seq::<SnapOrder>::empty() + flat_range(s, l, k + 1, n).filter(p) =~= flat_range(
                s,
                l,
                k + 1,
                n,
            ).filter(p));
        }
    }
}

/// Engines in agreement hold the same book: shelved by price level, the orders
/// of the oracle are the orders of the fast engine.
pub proof fn law_agreement_is_equality(r: RefModel, m: BookModel)
    requires
        agree(r, m),
        m.wf(),
    ensures
        r.shelved() == m,
{
    let b = r.shelved();
    assert forall|i: int| 0 <= i < m.bids.len() implies b.bids[i] == m.bids[i] by {
        lemma_shelf_filter(r.bids, r.cfg, i);
        lemma_flat_shelf(m, Side::Bid, i, 0);
    }
    assert forall|i: int| 0 <= i < m.asks.len() implies b.asks[i] == m.asks[i] by {
        lemma_shelf_filter(r.asks, r.cfg, i);
        lemma_flat_shelf(m, Side::Ask, i, 0);
    }
    assert(b.bids =~= m.bids);
    assert(b.asks =~= m.asks);
}

} // verus!
