//! What the reference engine keeps, whatever sequence numbers come in: its
//! sides stay sorted, its orders stay sensible, and it never crosses.

use crate::agreement::ref_run;
use crate::config::BookConfig;
use crate::events::InputEvent;
use crate::model::Taker;
use crate::reference::{
    by_priority, lemma_filter_sorted, lemma_first_exists, lemma_insert_sorted, lemma_rank,
    lemma_sweep_sorted, not_id, rank, ref_enter, ref_step, ref_sweep, RefModel, RefOrder,
};
use crate::types::{OrderId, SelfTradePrevention, Side, TimeInForce};
use vstd::prelude::*;

verus! {

/// An order that may rest on side `s`: it lies on the grid, and wants
/// something, but no more than it came with.
pub open spec fn order_ok(cfg: BookConfig, s: Side, o: RefOrder) -> bool {
    &&& o.side == s
    &&& cfg.level_of(o.price) is Some
    &&& 0 < o.remaining <= o.original
}

/// One side in order: sorted by price-time priority, every order may rest
/// there, and no two share an id.
pub open spec fn side_ok(cfg: BookConfig, s: Side, q: Seq<RefOrder>) -> bool {
    &&& by_priority(q, s)
    &&& forall|k: int| 0 <= k < q.len() ==> order_ok(cfg, s, #[trigger] q[k])
    &&& forall|i: int, j: int| 0 <= i < j < q.len() ==> (#[trigger] q[i]).id != (#[trigger] q[j]).id
}

impl RefModel {
    /// Both sides are in order, share no id, do not cross, and hold no more
    /// than the capacity.
    pub open spec fn sound(self) -> bool {
        &&& self.wf()
        &&& side_ok(self.cfg, Side::Bid, self.bids)
        &&& side_ok(self.cfg, Side::Ask, self.asks)
        &&& forall|i: int, j: int|
            0 <= i < self.bids.len() && 0 <= j < self.asks.len() ==> (#[trigger] self.bids[i]).id
                != (#[trigger] self.asks[j]).id && self.bids[i].price.0 < self.asks[j].price.0
    }
}

/// `rest` is what is left of `q` when orders went off its front: the last ones
/// of them, some with less remaining.
spec fn trimmed(rest: Seq<RefOrder>, q: Seq<RefOrder>) -> bool {
    &&& rest.len() <= q.len()
    &&& forall|k: int|
        0 <= k < rest.len() ==> {
            let o = q[k + (q.len() - rest.len())];
            &&& (#[trigger] rest[k]) == RefOrder { remaining: rest[k].remaining, ..o }
            &&& o.remaining > 0 ==> 0 < rest[k].remaining <= o.remaining
        }
}

/// What is left of all but the first is left of all.
proof fn lemma_trimmed_skip(rest: Seq<RefOrder>, q: Seq<RefOrder>)
    requires
        q.len() > 0,
        trimmed(rest, q.skip(1)),
    ensures
        trimmed(rest, q),
{
    let d = q.skip(1);
    assert forall|k: int| 0 <= k < rest.len() implies {
        let o = q[k + (q.len() - rest.len())];
        &&& (#[trigger] rest[k]) == RefOrder { remaining: rest[k].remaining, ..o }
        &&& o.remaining > 0 ==> 0 < rest[k].remaining <= o.remaining
    } by {
        assert(d[k + (d.len() - rest.len())] == q[k + (q.len() - rest.len())]);
    }
}

/// Matching takes orders off the front, and stops where nothing is wanted or
/// nothing is reached.
proof fn lemma_sweep_trims(t: Taker, q: Seq<RefOrder>, remaining: u64)
    ensures
        trimmed(ref_sweep(t, q, remaining).rest, q),
        ref_sweep(t, q, remaining).remaining <= remaining,
        !ref_sweep(t, q, remaining).killed && ref_sweep(t, q, remaining).remaining > 0
            && ref_sweep(t, q, remaining).rest.len() > 0 ==> !t.reaches(
            ref_sweep(t, q, remaining).rest[0].meaning(),
        ),
    decreases q.len(),
{
    if remaining > 0 && q.len() > 0 && t.reaches(q[0].meaning()) {
        let d = q.skip(1);
        if t.own(q[0].meaning()) {
            if t.stp == SelfTradePrevention::CancelResting {
                lemma_sweep_trims(t, d, remaining);
                lemma_trimmed_skip(ref_sweep(t, d, remaining).rest, q);
            } else if t.stp != SelfTradePrevention::CancelAggressor {
                assert(trimmed(d, d));
                lemma_trimmed_skip(d, q);
            }
        } else if q[0].remaining <= remaining {
            let less = (remaining - q[0].remaining) as u64;
            lemma_sweep_trims(t, d, less);
            lemma_trimmed_skip(ref_sweep(t, d, less).rest, q);
        }
    }
}

/// What matching leaves of a side in order is in order.
proof fn lemma_trimmed_ok(cfg: BookConfig, s: Side, rest: Seq<RefOrder>, q: Seq<RefOrder>)
    requires
        side_ok(cfg, s, q),
        trimmed(rest, q),
        by_priority(rest, s),
    ensures
        side_ok(cfg, s, rest),
        forall|k: int|
            0 <= k < rest.len() ==> exists|i: int|
                0 <= i < q.len() && (#[trigger] q[i]).id == (#[trigger] rest[k]).id && q[i].price
                    == rest[k].price,
{
    let d = q.len() - rest.len();
    assert forall|k: int| 0 <= k < rest.len() implies order_ok(cfg, s, #[trigger] rest[k]) by {
        assert(order_ok(cfg, s, q[k + d]));
    }
    assert forall|i: int, j: int| 0 <= i < j < rest.len() implies (#[trigger] rest[i]).id != (
    #[trigger] rest[j]).id by {
        assert(q[i + d].id != q[j + d].id);
    }
    assert forall|k: int| 0 <= k < rest.len() implies exists|i: int|
        0 <= i < q.len() && (#[trigger] q[i]).id == (#[trigger] rest[k]).id && q[i].price
            == rest[k].price by {
        assert(q[k + d].id == rest[k].id);
    }
}

/// Taking an order out keeps a side in order.
proof fn lemma_filtered_ok(cfg: BookConfig, s: Side, q: Seq<RefOrder>, id: OrderId)
    requires
        side_ok(cfg, s, q),
    ensures
        side_ok(cfg, s, q.filter(not_id(id))),
        forall|k: int|
            0 <= k < q.filter(not_id(id)).len() ==> q.contains(
                #[trigger] q.filter(not_id(id))[k],
            ) && q.filter(not_id(id))[k].id != id,
{
    let p = not_id(id);
    let f = q.filter(p);
    lemma_filter_sorted(q, p, s);
    assert forall|k: int| 0 <= k < f.len() implies order_ok(cfg, s, #[trigger] f[k]) by {
        assert(q.contains(f[k]));
        let j = q.index_of(f[k]);
        assert(order_ok(cfg, s, q[j]));
    }
    lemma_filter_distinct(q, id);
    assert forall|k: int| 0 <= k < f.len() implies q.contains(#[trigger] f[k]) && f[k].id != id by {
        q.lemma_filter_pred(p, k);
    }
}

proof fn lemma_filter_distinct(q: Seq<RefOrder>, id: OrderId)
    requires
        forall|i: int, j: int| 0 <= i < j < q.len() ==> (#[trigger] q[i]).id != (#[trigger] q[j]).id,
    ensures
        ({
            let f = q.filter(not_id(id));
            &&& forall|i: int, j: int|
                0 <= i < j < f.len() ==> (#[trigger] f[i]).id != (#[trigger] f[j]).id
            &&& forall|k: int| 0 <= k < f.len() ==> q.contains(#[trigger] f[k])
        }),
    decreases q.len(),
{
    reveal(Seq::filter);
    if q.len() > 0 {
        let d = q.drop_last();
        let f = d.filter(not_id(id));
        let g = q.filter(not_id(id));
        lemma_filter_distinct(d, id);
        assert forall|k: int| 0 <= k < g.len() implies q.contains(#[trigger] g[k]) by {
            if k < f.len() {
                assert(d.contains(f[k]));
                let j = d.index_of(f[k]);
                assert(q[j] == g[k]);
            } else {
                assert(q[q.len() - 1] == g[k]);
            }
        }
        assert forall|i: int, j: int| 0 <= i < j < g.len() implies (#[trigger] g[i]).id != (
        #[trigger] g[j]).id by {
            if j < f.len() {
                assert(f[i].id != f[j].id);
            } else {
                assert(d.contains(f[i]));
                let k = d.index_of(f[i]);
                assert(q[k].id != q[q.len() - 1].id);
            }
        }
    }
}

/// Putting a new order in its place keeps a side in order.
proof fn lemma_inserted_ok(cfg: BookConfig, s: Side, q: Seq<RefOrder>, o: RefOrder)
    requires
        side_ok(cfg, s, q),
        order_ok(cfg, s, o),
        forall|k: int| 0 <= k < q.len() ==> (#[trigger] q[k]).id != o.id,
    ensures
        side_ok(cfg, s, q.insert(rank(q, o, s), o)),
        q.insert(rank(q, o, s), o).len() == q.len() + 1,
        forall|k: int|
            0 <= k < q.len() + 1 ==> (#[trigger] q.insert(rank(q, o, s), o)[k]) == o || q.contains(
                q.insert(rank(q, o, s), o)[k],
            ),
{
    lemma_rank(q, o, s);
    lemma_insert_sorted(q, o, s);
    let r = rank(q, o, s);
    let g = q.insert(r, o);
    assert forall|k: int| 0 <= k < g.len() implies (#[trigger] g[k]) == o || q.contains(g[k]) by {
        if k < r {
            assert(g[k] == q[k]);
        } else if k > r {
            assert(g[k] == q[k - 1]);
        }
    }
    assert forall|k: int| 0 <= k < g.len() implies order_ok(cfg, s, #[trigger] g[k]) by {
        if k < r {
            assert(g[k] == q[k]);
        } else if k > r {
            assert(g[k] == q[k - 1]);
        }
    }
    assert forall|i: int, j: int| 0 <= i < j < g.len() implies (#[trigger] g[i]).id != (
    #[trigger] g[j]).id by {
        let a = if i < r { i } else { i - 1 };
        let b = if j < r { j } else { j - 1 };
        if i != r {
            assert(g[i] == q[a]);
        }
        if j != r {
            assert(g[j] == q[b]);
        }
    }
}

/// No order of `q` has the id of the taker or is reached by it.
spec fn clear_of(q: Seq<RefOrder>, t: Taker) -> bool {
    forall|k: int|
        0 <= k < q.len() ==> (#[trigger] q[k]).id != t.id && !t.reaches(q[k].meaning())
}

/// Matching leaves the oracle sound; where the order still wants something, it
/// reaches nothing any more.
proof fn lemma_crossed_sound(r: RefModel, t: Taker, qty: u64)
    requires
        r.sound(),
        forall|k: int|
            0 <= k < r.side(t.side.opposite()).len() ==> (#[trigger] r.side(t.side.opposite())[k]).id
                != t.id,
    ensures
        ({
            let opp = t.side.opposite();
            let w = ref_sweep(t, r.side(opp), qty);
            &&& r.with_side(opp, w.rest).sound()
            &&& w.rest.len() <= r.side(opp).len()
            &&& w.remaining <= qty
            &&& !w.killed && w.remaining > 0 ==> clear_of(w.rest, t)
        }),
{
    let opp = t.side.opposite();
    let q = r.side(opp);
    let w = ref_sweep(t, q, qty);
    let rest = w.rest;
    lemma_sweep_sorted(t, q, qty, opp);
    lemma_sweep_trims(t, q, qty);
    assert(side_ok(r.cfg, opp, q));
    lemma_trimmed_ok(r.cfg, opp, rest, q);
    let c = r.with_side(opp, rest);
    assert forall|i: int, j: int| 0 <= i < c.bids.len() && 0 <= j < c.asks.len() implies (
    #[trigger] c.bids[i]).id != (#[trigger] c.asks[j]).id && c.bids[i].price.0
        < c.asks[j].price.0 by {
        let m = if opp == Side::Bid { i } else { j };
        let k = choose|k: int|
            0 <= k < q.len() && (#[trigger] q[k]).id == rest[m].id && q[k].price == rest[m].price;
        assert(rest[m].id == rest[m].id);
        if opp == Side::Bid {
            assert(r.bids[k].id != r.asks[j].id);
        } else {
            assert(r.bids[i].id != r.asks[k].id);
        }
    }
    if !w.killed && w.remaining > 0 {
        assert forall|k: int| 0 <= k < rest.len() implies (#[trigger] rest[k]).id != t.id
            && !t.reaches(rest[k].meaning()) by {
            let i = choose|i: int|
                0 <= i < q.len() && (#[trigger] q[i]).id == rest[k].id && q[i].price
                    == rest[k].price;
            assert(q[i].id != t.id);
            if k > 0 {
                assert(!rest[k].precedes(rest[0], opp));
            }
        }
    }
}

/// An order that reaches nothing rests soundly.
proof fn lemma_rested_sound(c: RefModel, t: Taker, o: RefOrder)
    requires
        c.sound(),
        c.live() < c.cfg.max_live_orders,
        o.id == t.id,
        o.price == t.price,
        order_ok(c.cfg, t.side, o),
        clear_of(c.side(t.side.opposite()), t),
        forall|k: int| 0 <= k < c.side(t.side).len() ==> (#[trigger] c.side(t.side)[k]).id != t.id,
    ensures
        c.rested(o).sound(),
        c.rested(o).cfg == c.cfg,
{
    let s = t.side;
    let own = c.side(s);
    let other = c.side(s.opposite());
    let n = c.rested(o);
    assert(side_ok(c.cfg, s, own));
    lemma_inserted_ok(c.cfg, s, own, o);
    let g = own.insert(rank(own, o, s), o);
    assert forall|i: int, j: int| 0 <= i < n.bids.len() && 0 <= j < n.asks.len() implies (
    #[trigger] n.bids[i]).id != (#[trigger] n.asks[j]).id && n.bids[i].price.0
        < n.asks[j].price.0 by {
        let a = if s == Side::Bid { i } else { j };
        let b = if s == Side::Bid { j } else { i };
        assert(n.side(s)[a] == g[a] && n.side(s.opposite())[b] == other[b]);
        if g[a] != o {
            assert(own.contains(g[a]));
            let k = own.index_of(g[a]);
            if s == Side::Bid {
                assert(c.bids[k].id != c.asks[b].id);
            } else {
                assert(c.bids[b].id != c.asks[k].id);
            }
        } else {
            assert(other[b].id != t.id && !t.reaches(other[b].meaning()));
        }
    }
}

/// An accepted order leaves the oracle sound.
proof fn lemma_enter_sound(r: RefModel, t: Taker, qty: u64, tif: TimeInForce)
    requires
        r.sound(),
        r.cfg.level_of(t.price) is Some,
        r.live() < r.cfg.max_live_orders,
        forall|k: int| 0 <= k < r.bids.len() ==> (#[trigger] r.bids[k]).id != t.id,
        forall|k: int| 0 <= k < r.asks.len() ==> (#[trigger] r.asks[k]).id != t.id,
    ensures
        ref_enter(r, t, qty, tif).book.sound(),
        ref_enter(r, t, qty, tif).book.cfg == r.cfg,
{
    let opp = t.side.opposite();
    let w = ref_sweep(t, r.side(opp), qty);
    lemma_crossed_sound(r, t, qty);
    let c = r.with_side(opp, w.rest);
    if !w.killed && w.remaining > 0 && tif == TimeInForce::Gtc {
        let o = RefOrder {
            id: t.id,
            trader: t.trader,
            side: t.side,
            price: t.price,
            remaining: w.remaining,
            original: qty,
            seq: t.seq.0,
            stp: t.stp,
        };
        assert(c.side(opp) == w.rest && c.side(t.side) == r.side(t.side));
        lemma_rested_sound(c, t, o);
    }
}

/// An oracle without one of its orders is sound.
proof fn lemma_removed_sound(r: RefModel, id: OrderId)
    requires
        r.sound(),
    ensures
        r.removed(id).sound(),
        forall|k: int| 0 <= k < r.removed(id).bids.len() ==> (#[trigger] r.removed(id).bids[k]).id
            != id,
        forall|k: int| 0 <= k < r.removed(id).asks.len() ==> (#[trigger] r.removed(id).asks[k]).id
            != id,
{
    let n = r.removed(id);
    lemma_filtered_ok(r.cfg, Side::Bid, r.bids, id);
    lemma_filtered_ok(r.cfg, Side::Ask, r.asks, id);
    r.bids.lemma_filter_len(not_id(id));
    r.asks.lemma_filter_len(not_id(id));
    assert forall|i: int, j: int| 0 <= i < n.bids.len() && 0 <= j < n.asks.len() implies (
    #[trigger] n.bids[i]).id != (#[trigger] n.asks[j]).id && n.bids[i].price.0
        < n.asks[j].price.0 by {
        assert(r.bids.contains(n.bids[i]) && r.asks.contains(n.asks[j]));
        let a = r.bids.index_of(n.bids[i]);
        let b = r.asks.index_of(n.asks[j]);
        assert(r.bids[a].id != r.asks[b].id);
    }
}

/// No order of an oracle has an id that is not found.
proof fn lemma_not_found(r: RefModel, id: OrderId)
    requires
        r.find(id) is None,
    ensures
        forall|k: int| 0 <= k < r.bids.len() ==> (#[trigger] r.bids[k]).id != id,
        forall|k: int| 0 <= k < r.asks.len() ==> (#[trigger] r.asks[k]).id != id,
{
    let q = r.bids + r.asks;
    lemma_first_exists(q, id);
    assert forall|k: int| 0 <= k < r.bids.len() implies (#[trigger] r.bids[k]).id != id by {
        assert(q[k] == r.bids[k]);
    }
    assert forall|k: int| 0 <= k < r.asks.len() implies (#[trigger] r.asks[k]).id != id by {
        assert(q[k + r.bids.len()] == r.asks[k]);
    }
}

/// The oracle stays sound, whatever instruction comes and whatever its
/// sequence number: bids by falling and asks by rising price, then by sequence
/// number; every order on the grid, wanting something and no more than it came
/// with; ids distinct; the best bid below the best ask; no more orders than
/// the book has room for.
pub proof fn law_oracle_stays_sound(r: RefModel, ev: InputEvent)
    requires
        r.sound(),
    ensures
        ref_step(r, ev).book.sound(),
        ref_step(r, ev).book.cfg == r.cfg,
{
    match ev {
        InputEvent::New { seq, order_id, trader, side, price, qty, tif, stp } => {
            let t = Taker { seq, id: order_id, trader, side, price, stp };
            if qty.0 > 0 && r.find(order_id) is None && r.cfg.level_of(price) is Some && r.live()
                < r.cfg.max_live_orders {
                lemma_not_found(r, order_id);
                lemma_enter_sound(r, t, qty.0, tif);
            }
        },
        InputEvent::Cancel { seq, order_id, trader } => {
            lemma_removed_sound(r, order_id);
        },
        InputEvent::Modify { seq, order_id, trader, new_price, new_qty } => {
            if r.find(order_id) is Some {
                let o = r.find(order_id)->0;
                let t = Taker {
                    seq,
                    id: order_id,
                    trader,
                    side: o.side,
                    price: new_price,
                    stp: o.stp,
                };
                lemma_removed_sound(r, order_id);
                r.removed(order_id).lemma_removed_room(r, order_id);
                if new_qty.0 > 0 && r.cfg.level_of(new_price) is Some {
                    lemma_enter_sound(r.removed(order_id), t, new_qty.0, TimeInForce::Gtc);
                }
            }
        },
    }
}

/// Every state that an oracle reaches from the empty one is sound.
pub proof fn law_oracle_session_sound(cfg: BookConfig, evs: Seq<InputEvent>)
    requires
        cfg.tick_size >= 1,
    ensures
        ref_run(RefModel::empty(cfg), evs).book.sound(),
        ref_run(RefModel::empty(cfg), evs).book.cfg == cfg,
    decreases evs.len(),
{
    if evs.len() > 0 {
        law_oracle_session_sound(cfg, evs.drop_last());
        law_oracle_stays_sound(ref_run(RefModel::empty(cfg), evs.drop_last()).book, evs.last());
    }
}

} // verus!
