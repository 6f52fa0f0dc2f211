//! The fast engine: `OrderBook::apply`, the match loop.
//!
//! Three structures carry it: a flat array of price levels with a bitmap per
//! side, an arena of order slots, and an index from order id to slot. What
//! they mean together is a [`BookModel`], and every instruction does to it
//! exactly what [`step`] says.

use crate::arena::{succ, Arena, OrderSlot, NIL};
use crate::book_side::{bit_at, lemma_queued_bound, level_ok, queued, BookSide};
use crate::buffer::{clip, lemma_clip_append, EventBuffer};
use crate::config::BookConfig;
use crate::events::{CancelReason, InputEvent, OutputEvent, RejectReason};
use crate::model::{
    available, best_level, crosses_at, drop_head, enter, is_best_level, lemma_available_level,
    lemma_best_kept, lemma_best_none, lemma_best_unique, lemma_removed, lemma_rows_skip,
    lemma_total_update, order_total, queue_qty, refused, rows, rung, step, step_cancel,
    step_modify, step_new, sweep, BookModel, Ladder, Sweep, Taker,
};
use crate::order_index::OrderIndex;
use crate::snapshot::SnapOrder;
use crate::types::{OrderId, Price, Qty, SelfTradePrevention, SeqNo, Side, TimeInForce, TraderId};
use vstd::prelude::*;

verus! {

/// The order that a slot holds.
pub open spec fn order_of(slot: OrderSlot) -> SnapOrder {
    SnapOrder {
        order_id: slot.order_id,
        trader: slot.trader,
        side: Side::from_u8(slot.side),
        price: slot.price,
        remaining: slot.remaining,
        original_qty: slot.original_qty,
        stp: SelfTradePrevention::from_u8(slot.stp),
    }
}

/// The orders on a list of slots.
pub open spec fn queue_of(slots: Seq<OrderSlot>, c: Seq<u32>) -> Seq<SnapOrder> {
    Seq::new(c.len(), |k: int| order_of(slots[c[k] as int]))
}

/// The orders on the lists of all levels.
pub open spec fn ladder_of(slots: Seq<OrderSlot>, chains: Seq<Seq<u32>>) -> Ladder {
    Seq::new(chains.len(), |l: int| queue_of(slots, chains[l]))
}

/// Relinking slots does not change the orders on them.
proof fn lemma_ladder_frame(a: Seq<OrderSlot>, b: Seq<OrderSlot>, chains: Seq<Seq<u32>>)
    requires
        forall|l: int, k: int|
            #![trigger chains[l][k]]
            0 <= l < chains.len() && 0 <= k < chains[l].len() ==> order_of(
                a[chains[l][k] as int],
            ) == order_of(b[chains[l][k] as int]),
    ensures
        ladder_of(a, chains) == ladder_of(b, chains),
{
    assert forall|l: int| 0 <= l < chains.len() implies ladder_of(a, chains)[l] == ladder_of(
        b,
        chains,
    )[l] by {
        assert(queue_of(a, chains[l]) =~= queue_of(b, chains[l]));
    }
    assert(ladder_of(a, chains) =~= ladder_of(b, chains));
}

/// Does an aggressor at `agg_price` cross a resting order at `resting_price`?
fn crosses(aggressor: Side, agg_price: Price, resting_price: Price) -> (r: bool)
    ensures
        r == crosses_at(aggressor, agg_price.0 as int, resting_price.0 as int),
{
    match aggressor {
        Side::Bid => agg_price.0 >= resting_price.0,
        Side::Ask => agg_price.0 <= resting_price.0,
    }
}

/// The quantity on a list of slots is that of the orders on it.
proof fn lemma_queue_qty(slots: Seq<OrderSlot>, c: Seq<u32>)
    ensures
        queue_qty(queue_of(slots, c)) == queued(slots, c),
    decreases c.len(),
{
    if c.len() > 0 {
        lemma_queue_qty(slots, c.drop_last());
        assert(queue_of(slots, c).drop_last() =~= queue_of(slots, c.drop_last()));
    }
}

/// Level `j` comes before level `lvl` when a side is walked best-first.
spec fn ahead(s: Side, j: int, lvl: u32) -> bool {
    lvl == NIL || match s {
        Side::Bid => j > lvl,
        Side::Ask => j < lvl,
    }
}

/// `g` is the ladder `l` with everything ahead of `lvl` taken off, whatever
/// is left on `lvl` itself.
spec fn walked(s: Side, l: Ladder, g: Ladder, lvl: u32) -> bool {
    &&& g.len() == l.len()
    &&& forall|j: int|
        0 <= j < l.len() && j != lvl ==> if ahead(s, j, lvl) {
            (#[trigger] g[j]).len() == 0
        } else {
            g[j] == l[j]
        }
}

/// Matching `t` from the second state ends as matching it from the first does,
/// with the output so far taken into account.
spec fn carries_on(
    t: Taker,
    l0: Ladder,
    r0: u64,
    out0: Seq<OutputEvent>,
    l1: Ladder,
    r1: u64,
    out1: Seq<OutputEvent>,
    limit: nat,
) -> bool {
    let w0 = sweep(t, l0, r0);
    let w1 = sweep(t, l1, r1);
    &&& w0.ladder == w1.ladder
    &&& w0.remaining == w1.remaining
    &&& w0.killed == w1.killed
    &&& clip(out0 + w0.events, limit) == clip(out1 + w1.events, limit)
}

/// One event more in the output, one event less to come.
proof fn lemma_clip_one(
    out: Seq<OutputEvent>,
    ev: OutputEvent,
    rest: Seq<OutputEvent>,
    limit: nat,
)
    ensures
        clip(clip(out.push(ev), limit) + rest, limit) == clip(out + (seq![ev] + rest), limit),
{
    assert(out.push(ev) =~= out + seq![ev]);
    lemma_clip_append(out, seq![ev], rest, limit);
}

/// The fast limit order book.
pub struct OrderBook {
    pub(crate) cfg: BookConfig,
    pub(crate) arena: Arena,
    pub(crate) bids: BookSide,
    pub(crate) asks: BookSide,
    pub(crate) index: OrderIndex,
}

impl OrderBook {
    /// One side of the book.
    pub open(crate) spec fn side_of(&self, s: Side) -> BookSide {
        match s {
            Side::Bid => self.bids,
            Side::Ask => self.asks,
        }
    }

    /// The FIFOs of one side, as arena indices.
    pub open(crate) spec fn chains(&self, s: Side) -> Seq<Seq<u32>> {
        self.side_of(s).chains(self.arena.slots())
    }

    /// The orders of one side.
    pub open(crate) spec fn ladder(&self, s: Side) -> Ladder {
        ladder_of(self.arena.slots(), self.chains(s))
    }

    /// What the book means.
    pub open(crate) spec fn view(&self) -> BookModel {
        BookModel { cfg: self.cfg, bids: self.ladder(Side::Bid), asks: self.ladder(Side::Ask) }
    }

    /// Slot `i` is well placed on level `l` of side `s`.
    pub open(crate) spec fn placed(&self, s: Side, l: int, i: u32) -> bool {
        let slot = self.arena.slots()[i as int];
        &&& self.arena.live(i)
        &&& Side::from_u8(slot.side) == s
        &&& self.cfg.on_level(Price(slot.price), l)
        &&& slot.remaining > 0
        &&& self.index@.contains_key(slot.order_id)
        &&& self.index@[slot.order_id] == i
    }

    /// The parts of the book are consistent by themselves.
    pub open(crate) spec fn parts_ok(&self) -> bool {
        &&& self.cfg.wf()
        &&& self.arena.wf()
        &&& self.arena.slots().len() == self.cfg.max_live_orders
        &&& self.bids.which() == Side::Bid
        &&& self.asks.which() == Side::Ask
        &&& self.bids.levels().len() == self.cfg.num_levels
        &&& self.asks.levels().len() == self.cfg.num_levels
        &&& self.bids.wf(self.arena.slots())
        &&& self.asks.wf(self.arena.slots())
        &&& self.index.wf()
        &&& self.index.capacity() >= 2 * self.cfg.max_live_orders
    }

    /// Every linked slot is a live, indexed order at the level of its price.
    pub open(crate) spec fn all_placed(&self) -> bool {
        forall|s: Side, l: int, k: int|
            #![trigger self.chains(s)[l][k]]
            0 <= l < self.cfg.num_levels && 0 <= k < self.chains(s)[l].len() ==> self.placed(
                s,
                l,
                self.chains(s)[l][k],
            )
    }

    /// Every live slot is linked where it says it is.
    pub open(crate) spec fn all_linked(&self) -> bool {
        forall|i: u32| #[trigger]
            self.arena.live(i) ==> {
                let slot = self.arena.slots()[i as int];
                &&& slot.level_idx < self.cfg.num_levels
                &&& self.chains(Side::from_u8(slot.side))[slot.level_idx as int].contains(i)
            }
    }

    /// Every indexed id belongs to a live slot.
    pub open(crate) spec fn index_ok(&self) -> bool {
        &&& forall|id: u64| #[trigger]
            self.index@.contains_key(id) ==> self.arena.live(self.index@[id])
                && self.arena.slots()[self.index@[id] as int].order_id == id
        &&& self.index@.len() == self.arena.live_len()
    }

    /// The book is consistent.
    pub open(crate) spec fn wf(&self) -> bool {
        &&& self.parts_ok()
        &&& self.all_placed()
        &&& self.all_linked()
        &&& self.index_ok()
        &&& order_total(self@.bids) + order_total(self@.asks) == self.arena.live_len()
    }

    /// Where a live slot is linked.
    pub(crate) proof fn lemma_place(&self, i: u32) -> (p: (Side, int, int))
        requires
            self.wf(),
            self.arena.live(i),
        ensures
            p.0 == Side::from_u8(self.arena.slots()[i as int].side),
            p.1 == self.arena.slots()[i as int].level_idx,
            0 <= p.1 < self.cfg.num_levels,
            0 <= p.2 < self.chains(p.0)[p.1].len(),
            self.chains(p.0)[p.1][p.2] == i,
            self.chains(p.0)[p.1].index_of(i) == p.2,
            self.placed(p.0, p.1, i),
            self@.at(p.0, p.1, p.2),
            self@.order(p.0, p.1, p.2) == order_of(self.arena.slots()[i as int]),
    {
        let slot = self.arena.slots()[i as int];
        let s = Side::from_u8(slot.side);
        let l = slot.level_idx as int;
        let c = self.chains(s)[l];
        let k = c.index_of(i);
        assert(c.contains(i));
        assert(0 <= k < c.len() && c[k] == i);
        assert(self.placed(s, l, self.chains(s)[l][k]));
        (s, l, k)
    }

    /// A linked slot says where it is linked.
    pub(crate) proof fn lemma_linked(&self, s: Side, l: int, k: int)
        requires
            self.parts_ok(),
            0 <= l < self.cfg.num_levels,
            0 <= k < self.chains(s)[l].len(),
        ensures
            self.chains(s)[l] == self.side_of(s).chain_at(self.arena.slots(), l),
            level_ok(
                self.arena.slots(),
                self.side_of(s).levels()[l],
                l,
                self.chains(s)[l],
            ),
            self.chains(s)[l][k] < self.arena.slots().len(),
            self.arena.slots()[self.chains(s)[l][k] as int].level_idx == l,
            self.chains(s)[l].index_of(self.chains(s)[l][k]) == k,
    {
        let side = self.side_of(s);
        assert(side.level_linked(self.arena.slots(), l));
        let c = self.chains(s)[l];
        assert(self.arena.slots()[c[k] as int].level_idx == l);
        assert(c.contains(c[k]));
    }

    /// Two places never share a slot.
    pub(crate) proof fn lemma_place_unique(
        &self,
        s: Side,
        l: int,
        k: int,
        s2: Side,
        l2: int,
        k2: int,
    )
        requires
            self.parts_ok(),
            self.all_placed(),
            0 <= l < self.cfg.num_levels,
            0 <= l2 < self.cfg.num_levels,
            0 <= k < self.chains(s)[l].len(),
            0 <= k2 < self.chains(s2)[l2].len(),
            self.chains(s)[l][k] == self.chains(s2)[l2][k2],
        ensures
            s == s2,
            l == l2,
            k == k2,
    {
        self.lemma_linked(s, l, k);
        self.lemma_linked(s2, l2, k2);
        assert(self.placed(s, l, self.chains(s)[l][k]));
        assert(self.placed(s2, l2, self.chains(s2)[l2][k2]));
    }

    /// A consistent book means a consistent mathematical book.
    pub proof fn lemma_model_wf(&self)
        requires
            self.wf(),
        ensures
            self@.wf(),
    {
        let m = self@;
        assert forall|s: Side, i: int, k: int| #![trigger m.order(s, i, k)] m.at(s, i, k) implies {
            let o = m.order(s, i, k);
            o.side == s && m.cfg.on_level(Price(o.price), i) && o.remaining > 0
        } by {
            assert(self.placed(s, i, self.chains(s)[i][k]));
        }
        assert forall|s: Side, i: int, k: int, s2: Side, i2: int, k2: int|
            #![trigger m.order(s, i, k), m.order(s2, i2, k2)]
            m.at(s, i, k) && m.at(s2, i2, k2) && m.order(s, i, k).order_id == m.order(
                s2,
                i2,
                k2,
            ).order_id implies s == s2 && i == i2 && k == k2 by {
            assert(self.placed(s, i, self.chains(s)[i][k]));
            assert(self.placed(s2, i2, self.chains(s2)[i2][k2]));
            self.lemma_place_unique(s, i, k, s2, i2, k2);
        }
    }

    /// The index knows exactly the orders on the book.
    pub(crate) proof fn lemma_index(&self, id: u64)
        requires
            self.wf(),
        ensures
            self.index@.contains_key(id) <==> self@.has(id),
            self.index@.contains_key(id) ==> self@.find(id) == order_of(
                self.arena.slots()[self.index@[id] as int],
            ),
    {
        let m = self@;
        if self.index@.contains_key(id) {
            let p = self.lemma_place(self.index@[id]);
            assert(m.order(p.0, p.1, p.2).order_id == id);
        }
        if m.has(id) {
            let (s, i, k) = choose|s: Side, i: int, k: int|
                #![trigger m.order(s, i, k)]
                m.at(s, i, k) && m.order(s, i, k).order_id == id;
            assert(self.placed(s, i, self.chains(s)[i][k]));
        }
    }

    /// Pre-allocates everything (arena, level arrays, bitmap, index).
    /// After this, the engine never allocates again.
    pub fn new(cfg: BookConfig) -> (b: Self)
        requires
            cfg.wf(),
        ensures
            b.wf(),
            b@ == BookModel::empty(cfg),
    {
        let b = OrderBook {
            cfg,
            arena: Arena::with_capacity(cfg.max_live_orders),
            bids: BookSide::new(Side::Bid, cfg.num_levels),
            asks: BookSide::new(Side::Ask, cfg.num_levels),
            index: OrderIndex::with_capacity(cfg.max_live_orders),
        };
        proof {
            let none = Seq::new(cfg.num_levels as nat, |l: int| Seq::<u32>::empty());
            let slots = b.arena.slots();
            assert(b.bids.wf(slots) && b.asks.wf(slots));
            assert(b.chains(Side::Bid) == none);
            assert(b.chains(Side::Ask) == none);
            let e = BookModel::empty(cfg);
            assert forall|l: int| 0 <= l < cfg.num_levels implies queue_of(slots, none[l])
                =~= e.bids[l] by {}
            assert(b@.bids =~= e.bids);
            assert(b@.asks =~= e.asks);
            crate::model::lemma_total_empty(e.bids);
            assert forall|i: u32| !#[trigger] b.arena.live(i) by {
                if i < slots.len() {
                    assert(b.arena.free_list()[i as int] == i);
                }
            }
        }
        b
    }

    /// The configuration the book was made with.
    pub fn config(&self) -> (c: &BookConfig)
        ensures
            *c == self@.cfg,
    {
        &self.cfg
    }

    pub(crate) fn side(&self, s: Side) -> (b: &BookSide)
        ensures
            *b == self.side_of(s),
    {
        match s {
            Side::Bid => &self.bids,
            Side::Ask => &self.asks,
        }
    }

    /// Splice an order out of its level, drop it from the index, and
    /// recycle its arena slot. O(1): this IS the cancel path.
    fn unlink_and_free(&mut self, idx: u32)
        requires
            old(self).wf(),
            old(self).arena.live(idx),
        ensures
            final(self).wf(),
            final(self).cfg == old(self).cfg,
            final(self).arena.live_len() == old(self).arena.live_len() - 1,
            final(self).index@ == old(self).index@.remove(
                old(self).arena.slots()[idx as int].order_id,
            ),
            ({
                let slot = old(self).arena.slots()[idx as int];
                let s = Side::from_u8(slot.side);
                let l = slot.level_idx as int;
                let c = old(self).chains(s)[l];
                let k = c.index_of(idx);
                let lad = old(self)@.side(s);
                &&& final(self).chains(s) == old(self).chains(s).update(l, c.remove(k))
                &&& final(self)@ == old(self)@.with_side(s, lad.update(l, lad[l].remove(k)))
            }),
    {
        let ghost pre = *self;
        let ghost a = self.arena.slots();
        let ghost p = self.lemma_place(idx);
        let ghost s = p.0;
        let ghost o = s.opposite();
        let ghost l = p.1;
        let ghost k = p.2;
        let ghost c = self.chains(s)[l];
        proof {
            self.lemma_linked(s, l, k);
        }
        let slot = *self.arena.slot(idx);
        let side = Side::from_u8(slot.side);
        match side {
            Side::Bid => self.bids.unlink(&mut self.arena, idx),
            Side::Ask => self.asks.unlink(&mut self.arena, idx),
        }
        let ghost b = self.arena.slots();
        proof {
            let other = pre.side_of(o);
            assert forall|m: int, i: int|
                #![trigger other.chain_at(a, m)[i]]
                0 <= m < other.levels().len() && 0 <= i < other.chain_at(a, m).len() implies
                a[other.chain_at(a, m)[i] as int] == b[other.chain_at(a, m)[i] as int] by {
                assert(pre.chains(o)[m][i] == other.chain_at(a, m)[i]);
                pre.lemma_linked(o, m, i);
                let e = pre.chains(o)[m][i];
                if c.contains(e) {
                    let j = c.index_of(e);
                    pre.lemma_place_unique(o, m, i, s, l, j);
                }
                assert(b[e as int] == a[e as int]);
            }
            other.lemma_frame(a, b);
            assert forall|i: u32|
                pre.arena.free_list().contains(i) implies pre.arena.slots()[i as int].next == (
            #[trigger] self.arena.slots()[i as int]).next by {
                let f = pre.arena.free_list();
                assert(f[f.index_of(i)] < a.len());
                if c.contains(i) {
                    assert(pre.placed(s, l, pre.chains(s)[l][c.index_of(i)]));
                }
                assert(b[i as int] == a[i as int]);
            }
            pre.arena.lemma_frame(&self.arena);
        }
        let _ = self.index.remove(slot.order_id);
        self.arena.free(idx);
        proof {
            let d = self.arena.slots();
            let s_chains = pre.chains(s).update(l, c.remove(k));
            let mine = self.side_of(s);
            let other = self.side_of(o);
            assert(mine.chains(b) == s_chains);
            // The freed slot is on no FIFO any more.
            assert forall|m: int, i: int|
                #![trigger mine.chain_at(b, m)[i]]
                0 <= m < mine.levels().len() && 0 <= i < mine.chain_at(b, m).len() implies
                b[mine.chain_at(b, m)[i] as int] == d[mine.chain_at(b, m)[i] as int] by {
                let e = mine.chains(b)[m][i];
                assert(e == mine.chain_at(b, m)[i]);
                if e == idx {
                    if m == l {
                        let j = if i < k {
                            i
                        } else {
                            i + 1
                        };
                        assert(c[j] == idx);
                        assert(c[k] == idx);
                    } else {
                        assert(pre.chains(s)[m][i] == idx);
                        pre.lemma_place_unique(s, m, i, s, l, k);
                    }
                }
            }
            mine.lemma_frame(b, d);
            assert forall|m: int, i: int|
                #![trigger other.chain_at(b, m)[i]]
                0 <= m < other.levels().len() && 0 <= i < other.chain_at(b, m).len() implies
                b[other.chain_at(b, m)[i] as int] == d[other.chain_at(b, m)[i] as int] by {
                assert(other.chain_at(b, m) == other.chain_at(a, m));
                let e = pre.chains(o)[m][i];
                assert(e == other.chain_at(b, m)[i]);
                if e == idx {
                    pre.lemma_place_unique(o, m, i, s, l, k);
                }
            }
            other.lemma_frame(b, d);
            assert(self.chains(s) == s_chains);
            assert(self.chains(o) == pre.chains(o));
            self.lemma_unlinked(&pre, idx, s, l, k);
        }
    }

    /// Taking one slot off its FIFO and out of the index keeps the rest of the
    /// book as it is.
    proof fn lemma_unlinked(&self, pre: &OrderBook, idx: u32, s: Side, l: int, k: int)
        requires
            pre.wf(),
            self.parts_ok(),
            self.cfg == pre.cfg,
            0 <= l < pre.cfg.num_levels,
            0 <= k < pre.chains(s)[l].len(),
            pre.chains(s)[l][k] == idx,
            pre.arena.live(idx),
            self.chains(s) == pre.chains(s).update(l, pre.chains(s)[l].remove(k)),
            self.chains(s.opposite()) == pre.chains(s.opposite()),
            self.arena.slots().len() == pre.arena.slots().len(),
            self.arena.live_len() == pre.arena.live_len() - 1,
            forall|i: u32| #[trigger] self.arena.live(i) <==> i != idx && pre.arena.live(i),
            forall|i: int|
                0 <= i < pre.arena.slots().len() ==> (#[trigger] self.arena.slots()[i]).same_order(
                    pre.arena.slots()[i],
                ) && self.arena.slots()[i].level_idx == pre.arena.slots()[i].level_idx,
            self.index@ == pre.index@.remove(pre.arena.slots()[idx as int].order_id),
        ensures
            self.wf(),
            self@ == pre@.with_side(
                s,
                pre@.side(s).update(l, pre@.side(s)[l].remove(k)),
            ),
    {
        let o = s.opposite();
        let a = pre.arena.slots();
        let d = self.arena.slots();
        let c = pre.chains(s)[l];
        let id = a[idx as int].order_id;
        assert(pre.placed(s, l, pre.chains(s)[l][k]));
        pre.index.lemma_finite();
        assert forall|s2: Side, m: int, i: int|
            #![trigger self.chains(s2)[m][i]]
            0 <= m < self.cfg.num_levels && 0 <= i < self.chains(s2)[m].len() implies self.placed(
            s2,
            m,
            self.chains(s2)[m][i],
        ) by {
            let j = if s2 == s && m == l && i >= k {
                i + 1
            } else {
                i
            };
            assert(self.chains(s2)[m][i] == pre.chains(s2)[m][j]);
            let e = pre.chains(s2)[m][j];
            assert(pre.placed(s2, m, e));
            if e == idx {
                pre.lemma_place_unique(s2, m, j, s, l, k);
            }
            assert(d[e as int].same_order(a[e as int]));
        }
        assert forall|i: u32| #[trigger] self.arena.live(i) implies {
            let slot = self.arena.slots()[i as int];
            &&& slot.level_idx < self.cfg.num_levels
            &&& self.chains(Side::from_u8(slot.side))[slot.level_idx as int].contains(i)
        } by {
            assert(pre.arena.live(i));
            let q = pre.lemma_place(i);
            assert(d[i as int].same_order(a[i as int]));
            if q.0 == s && q.1 == l {
                let j = if q.2 < k {
                    q.2
                } else {
                    q.2 - 1
                };
                assert(c.remove(k)[j] == i);
            } else {
                assert(self.chains(q.0)[q.1] == pre.chains(q.0)[q.1]);
            }
        }
        assert forall|id2: u64| #[trigger] self.index@.contains_key(id2) implies self.arena.live(
            self.index@[id2],
        ) && self.arena.slots()[self.index@[id2] as int].order_id == id2 by {
            assert(pre.index@.contains_key(id2));
            let e = pre.index@[id2];
            assert(d[e as int].same_order(a[e as int]));
        }
        // The ladders.
        let lad = pre@.side(s);
        let new = lad.update(l, lad[l].remove(k));
        assert forall|m: int| 0 <= m < new.len() implies #[trigger] self.ladder(s)[m] == new[m] by {
            assert forall|i: int| 0 <= i < self.chains(s)[m].len() implies self.ladder(s)[m][i]
                == new[m][i] by {
                let e = self.chains(s)[m][i];
                assert(self.placed(s, m, e));
                assert(d[e as int].same_order(a[e as int]));
            }
            assert(self.ladder(s)[m] =~= new[m]);
        }
        assert(self.ladder(s) =~= new);
        assert forall|m: int, i: int|
            #![trigger pre.chains(o)[m][i]]
            0 <= m < pre.chains(o).len() && 0 <= i < pre.chains(o)[m].len() implies order_of(
            a[pre.chains(o)[m][i] as int],
        ) == order_of(d[pre.chains(o)[m][i] as int]) by {
            assert(pre.placed(o, m, pre.chains(o)[m][i]));
        }
        lemma_ladder_frame(a, d, pre.chains(o));
        lemma_total_update(lad, l, lad[l].remove(k));
        assert(self@ =~= pre@.with_side(s, new));
    }

    /// Take `qty` lots off the order in slot `idx`, which keeps its place.
    fn reduce(&mut self, idx: u32, qty: u64)
        requires
            old(self).wf(),
            old(self).arena.live(idx),
            qty < old(self).arena.slots()[idx as int].remaining,
        ensures
            final(self).wf(),
            final(self).cfg == old(self).cfg,
            final(self).index@ == old(self).index@,
            final(self).arena.live_len() == old(self).arena.live_len(),
            forall|s: Side| #[trigger] final(self).chains(s) == old(self).chains(s),
            ({
                let slot = old(self).arena.slots()[idx as int];
                let s = Side::from_u8(slot.side);
                let l = slot.level_idx as int;
                let k = old(self).chains(s)[l].index_of(idx);
                let lad = old(self)@.side(s);
                let o = lad[l][k];
                let left = SnapOrder { remaining: (o.remaining - qty) as u64, ..o };
                final(self)@ == old(self)@.with_side(s, lad.update(l, lad[l].update(k, left)))
            }),
    {
        let ghost pre = *self;
        let ghost a = self.arena.slots();
        let ghost p = self.lemma_place(idx);
        let ghost s = p.0;
        let ghost o = s.opposite();
        let ghost l = p.1;
        let ghost k = p.2;
        proof {
            self.lemma_linked(s, l, k);
            self.side_of(s).lemma_level_covers(a, l, k);
        }
        let slot = *self.arena.slot(idx);
        let level_idx = slot.level_idx;
        self.arena.slot_mut(idx).remaining = slot.remaining - qty;
        match Side::from_u8(slot.side) {
            Side::Bid => {
                let lvl = self.bids.level_mut(level_idx);
                lvl.total_qty = lvl.total_qty - qty as u128;
            },
            Side::Ask => {
                let lvl = self.asks.level_mut(level_idx);
                lvl.total_qty = lvl.total_qty - qty as u128;
            },
        }
        proof {
            let b = self.arena.slots();
            let mine = self.side_of(s);
            let other = self.side_of(o);
            mine.lemma_reduced(&pre.side_of(s), a, b, l, k, qty);
            assert forall|m: int, i: int|
                #![trigger other.chain_at(a, m)[i]]
                0 <= m < other.levels().len() && 0 <= i < other.chain_at(a, m).len() implies
                a[other.chain_at(a, m)[i] as int] == b[other.chain_at(a, m)[i] as int] by {
                assert(pre.chains(o)[m][i] == other.chain_at(a, m)[i]);
                if pre.chains(o)[m][i] == idx {
                    pre.lemma_place_unique(o, m, i, s, l, k);
                }
            }
            other.lemma_frame(a, b);
            assert forall|i: u32|
                pre.arena.free_list().contains(i) implies pre.arena.slots()[i as int].next == (
            #[trigger] self.arena.slots()[i as int]).next by {}
            pre.arena.lemma_frame(&self.arena);
            assert(self.chains(s) == pre.chains(s));
            assert(self.chains(o) == pre.chains(o));
            assert forall|s2: Side| #[trigger] self.chains(s2) == pre.chains(s2) by {
                assert(s2 == s || s2 == o);
            }
            assert forall|s2: Side, m: int, i: int|
                #![trigger self.chains(s2)[m][i]]
                0 <= m < self.cfg.num_levels && 0 <= i < self.chains(s2)[m].len() implies self.placed(
                s2,
                m,
                self.chains(s2)[m][i],
            ) by {
                assert(pre.placed(s2, m, pre.chains(s2)[m][i]));
            }
            assert forall|i: u32| #[trigger] self.arena.live(i) implies {
                let slot = self.arena.slots()[i as int];
                &&& slot.level_idx < self.cfg.num_levels
                &&& self.chains(Side::from_u8(slot.side))[slot.level_idx as int].contains(i)
            } by {
                assert(pre.arena.live(i));
            }
            let lad = pre@.side(s);
            let left = SnapOrder { remaining: (lad[l][k].remaining - qty) as u64, ..lad[l][k] };
            let new = lad.update(l, lad[l].update(k, left));
            assert forall|m: int| 0 <= m < new.len() implies #[trigger] self.ladder(s)[m]
                == new[m] by {
                assert forall|i: int| 0 <= i < self.chains(s)[m].len() implies self.ladder(s)[m][i]
                    == new[m][i] by {
                    assert(pre.placed(s, m, pre.chains(s)[m][i]));
                    if pre.chains(s)[m][i] == idx {
                        pre.lemma_place_unique(s, m, i, s, l, k);
                    }
                }
                assert(self.ladder(s)[m] =~= new[m]);
            }
            assert(self.ladder(s) =~= new);
            assert forall|m: int, i: int|
                #![trigger pre.chains(o)[m][i]]
                0 <= m < pre.chains(o).len() && 0 <= i < pre.chains(o)[m].len() implies order_of(
                a[pre.chains(o)[m][i] as int],
            ) == order_of(b[pre.chains(o)[m][i] as int]) by {
                if pre.chains(o)[m][i] == idx {
                    pre.lemma_place_unique(o, m, i, s, l, k);
                }
            }
            lemma_ladder_frame(a, b, pre.chains(o));
            lemma_total_update(lad, l, lad[l].update(k, left));
            assert(self@ =~= pre@.with_side(s, new));
        }
    }

    /// Rest the remainder on the book (good-till-cancel only). `level_idx` was
    /// computed and bounds-checked during validation, and so was that a slot
    /// is free.
    pub(crate) fn rest(
        &mut self,
        order_id: OrderId,
        trader: TraderId,
        side: Side,
        price: Price,
        level_idx: u32,
        remaining: u64,
        original_qty: u64,
        stp: SelfTradePrevention,
    )
        requires
            old(self).wf(),
            old(self).arena.live_len() < old(self).cfg.max_live_orders,
            !old(self).index@.contains_key(order_id.0),
            old(self).cfg.on_level(price, level_idx as int),
            remaining > 0,
        ensures
            final(self).wf(),
            final(self)@ == old(self)@.rested(
                (SnapOrder {
                    order_id: order_id.0,
                    trader: trader.0,
                    side,
                    price: price.0,
                    remaining,
                    original_qty,
                    stp,
                }),
            ),
    {
        let ghost pre = *self;
        let ghost a = self.arena.slots();
        let ghost l = level_idx as int;
        let ghost o = side.opposite();
        proof {
            Arena::lemma_chain_len(
                a,
                self.arena.free_head(),
                (a.len() - self.arena.live_len()) as nat,
            );
            self.index.lemma_finite();
        }
        if let Some(idx) = self.arena.alloc_slot() {
            let ghost taken = self.arena;
            {
                let s = self.arena.slot_mut(idx);
                s.remaining = remaining;
                s.order_id = order_id.0;
                s.price = price.0;
                s.trader = trader.0;
                s.original_qty = original_qty;
                s.side = side.to_u8();
                s.stp = stp.to_u8();
            }
            let ghost b = self.arena.slots();
            proof {
                assert(pre.arena.free_list().contains(idx));
                assert forall|s2: Side, m: int, i: int|
                    #![trigger pre.chains(s2)[m][i]]
                    0 <= m < pre.cfg.num_levels && 0 <= i < pre.chains(s2)[m].len() implies
                    pre.chains(s2)[m][i] != idx by {
                    assert(pre.placed(s2, m, pre.chains(s2)[m][i]));
                }
                pre.lemma_fresh(Side::Bid, idx, b);
                pre.lemma_fresh(Side::Ask, idx, b);
            }
            match side {
                Side::Bid => self.bids.link_tail(&mut self.arena, level_idx, idx),
                Side::Ask => self.asks.link_tail(&mut self.arena, level_idx, idx),
            }
            self.index.insert(order_id.0, idx);
            proof {
                let d = self.arena.slots();
                let c = pre.chains(side)[l];
                let other = self.side_of(o);
                assert(c == pre.side_of(side).chain_at(b, l));
                assert forall|m: int, i: int|
                    #![trigger other.chain_at(b, m)[i]]
                    0 <= m < other.levels().len() && 0 <= i < other.chain_at(b, m).len() implies
                    b[other.chain_at(b, m)[i] as int] == d[other.chain_at(b, m)[i] as int] by {
                    let e = pre.chains(o)[m][i];
                    assert(e == other.chain_at(b, m)[i]);
                    pre.lemma_linked(o, m, i);
                    if c.contains(e) {
                        pre.lemma_place_unique(o, m, i, side, l, c.index_of(e));
                    }
                }
                other.lemma_frame(b, d);
                assert(self.chains(side) == pre.chains(side).update(l, c.push(idx)));
                assert(self.chains(o) == pre.chains(o));
                assert forall|i: u32| taken.free_list().contains(i) implies taken.slots()[i as int].next
                    == (#[trigger] self.arena.slots()[i as int]).next by {
                    let f = taken.free_list();
                    assert(f[f.index_of(i)] < a.len());
                    assert(!taken.live(i));
                    assert(taken.live(idx));
                    if c.contains(i) {
                        assert(pre.placed(side, l, pre.chains(side)[l][c.index_of(i)]));
                    }
                    assert(d[i as int] == b[i as int]);
                }
                taken.lemma_frame(&self.arena);
                self.lemma_rested(&pre, idx, side, l, price);
            }
        }
    }

    /// Writing to a slot that is on no FIFO.
    proof fn lemma_fresh(&self, s: Side, idx: u32, b: Seq<OrderSlot>)
        requires
            self.parts_ok(),
            idx < self.arena.slots().len(),
            b.len() == self.arena.slots().len(),
            forall|i: int|
                0 <= i < b.len() && i != idx ==> #[trigger] b[i] == self.arena.slots()[i],
            forall|m: int, i: int|
                #![trigger self.chains(s)[m][i]]
                0 <= m < self.cfg.num_levels && 0 <= i < self.chains(s)[m].len() ==> self.chains(
                    s,
                )[m][i] != idx,
        ensures
            self.side_of(s).wf(b),
            self.side_of(s).chains(b) == self.chains(s),
            self.side_of(s).unlinked(b, idx),
            forall|m: int|
                0 <= m < self.cfg.num_levels ==> #[trigger] self.side_of(s).chain_at(b, m)
                    == self.chains(s)[m],
    {
        let a = self.arena.slots();
        let side = self.side_of(s);
        assert forall|m: int, i: int|
            #![trigger side.chain_at(a, m)[i]]
            0 <= m < side.levels().len() && 0 <= i < side.chain_at(a, m).len() implies
            a[side.chain_at(a, m)[i] as int] == b[side.chain_at(a, m)[i] as int] by {
            assert(self.chains(s)[m][i] == side.chain_at(a, m)[i]);
            self.lemma_linked(s, m, i);
        }
        side.lemma_frame(a, b);
        assert forall|m: int| 0 <= m < side.levels().len() implies !(#[trigger] side.chain_at(
            b,
            m,
        )).contains(idx) by {
            let c = side.chain_at(b, m);
            assert(c == self.chains(s)[m]);
            if c.contains(idx) {
                assert(self.chains(s)[m][c.index_of(idx)] == idx);
            }
        }
    }

    /// Putting one fresh slot behind a FIFO and into the index keeps the rest
    /// of the book as it is.
    proof fn lemma_rested(&self, pre: &OrderBook, idx: u32, s: Side, l: int, price: Price)
        requires
            pre.wf(),
            self.parts_ok(),
            self.cfg == pre.cfg,
            self.cfg.on_level(price, l),
            self.chains(s) == pre.chains(s).update(l, pre.chains(s)[l].push(idx)),
            self.chains(s.opposite()) == pre.chains(s.opposite()),
            self.arena.slots().len() == pre.arena.slots().len(),
            self.arena.live_len() == pre.arena.live_len() + 1,
            !pre.arena.live(idx),
            idx < pre.arena.slots().len(),
            forall|i: u32| #[trigger] self.arena.live(i) <==> i == idx || pre.arena.live(i),
            forall|i: int|
                0 <= i < pre.arena.slots().len() && i != idx ==> (
                #[trigger] self.arena.slots()[i]).same_order(pre.arena.slots()[i]),
            self.arena.slots()[idx as int].price == price.0,
            self.arena.slots()[idx as int].side == s.to_u8(),
            self.arena.slots()[idx as int].remaining > 0,
            !pre.index@.contains_key(self.arena.slots()[idx as int].order_id),
            self.index@ == pre.index@.insert(self.arena.slots()[idx as int].order_id, idx),
        ensures
            self.wf(),
            self@ == pre@.rested(order_of(self.arena.slots()[idx as int])),
    {
        let o = s.opposite();
        let a = pre.arena.slots();
        let d = self.arena.slots();
        let c = pre.chains(s)[l];
        let id = d[idx as int].order_id;
        pre.index.lemma_finite();
        self.cfg.lemma_level_of(price);
        assert(self.cfg.level_of(price) == Some(l as u32));
        assert forall|s2: Side, m: int, i: int|
            #![trigger self.chains(s2)[m][i]]
            0 <= m < self.cfg.num_levels && 0 <= i < self.chains(s2)[m].len() implies self.placed(
            s2,
            m,
            self.chains(s2)[m][i],
        ) by {
            let e = self.chains(s2)[m][i];
            if s2 == s && m == l && i == c.len() {
                assert(self.arena.live(idx));
            } else {
                assert(e == pre.chains(s2)[m][i]);
                assert(pre.placed(s2, m, pre.chains(s2)[m][i]));
                assert(d[e as int].same_order(a[e as int]));
            }
        }
        assert forall|i: u32| #[trigger] self.arena.live(i) implies {
            let slot = self.arena.slots()[i as int];
            &&& slot.level_idx < self.cfg.num_levels
            &&& self.chains(Side::from_u8(slot.side))[slot.level_idx as int].contains(i)
        } by {
            if i == idx {
                assert(self.chains(s)[l][c.len() as int] == idx);
                self.lemma_linked(s, l, c.len() as int);
            } else {
                assert(pre.arena.live(i));
                let q = pre.lemma_place(i);
                assert(d[i as int].same_order(a[i as int]));
                assert(self.chains(q.0)[q.1][q.2] == i);
                self.lemma_linked(q.0, q.1, q.2);
            }
        }
        assert forall|id2: u64| #[trigger] self.index@.contains_key(id2) implies self.arena.live(
            self.index@[id2],
        ) && self.arena.slots()[self.index@[id2] as int].order_id == id2 by {
            if id2 != id {
                assert(pre.index@.contains_key(id2));
                let e = pre.index@[id2];
                assert(pre.arena.live(e));
                assert(d[e as int].same_order(a[e as int]));
            }
        }
        let lad = pre@.side(s);
        let new = lad.update(l, lad[l].push(order_of(d[idx as int])));
        assert forall|m: int| 0 <= m < new.len() implies #[trigger] self.ladder(s)[m] == new[m] by {
            assert forall|i: int| 0 <= i < self.chains(s)[m].len() implies self.ladder(s)[m][i]
                == new[m][i] by {
                if !(m == l && i == c.len()) {
                    let e = pre.chains(s)[m][i];
                    assert(self.chains(s)[m][i] == e);
                    assert(pre.placed(s, m, e));
                    assert(d[e as int].same_order(a[e as int]));
                }
            }
            assert(self.ladder(s)[m] =~= new[m]);
        }
        assert(self.ladder(s) =~= new);
        assert forall|m: int, i: int|
            #![trigger pre.chains(o)[m][i]]
            0 <= m < pre.chains(o).len() && 0 <= i < pre.chains(o)[m].len() implies order_of(
            a[pre.chains(o)[m][i] as int],
        ) == order_of(d[pre.chains(o)[m][i] as int]) by {
            assert(pre.placed(o, m, pre.chains(o)[m][i]));
        }
        lemma_ladder_frame(a, d, pre.chains(o));
        lemma_total_update(lad, l, lad[l].push(order_of(d[idx as int])));
        assert(self@ =~= pre@.with_side(s, new));
    }

    /// The cached best level is the best level of the mathematical book.
    pub(crate) proof fn lemma_best(&self, s: Side)
        requires
            self.wf(),
        ensures
            self.side_of(s).best_idx() == NIL ==> best_level(s, self@.side(s)) is None,
            self.side_of(s).best_idx() != NIL ==> is_best_level(
                s,
                self@.side(s),
                self.side_of(s).best_idx() as int,
            ) && best_level(s, self@.side(s)) == Some(self.side_of(s).best_idx() as int),
    {
        let side = self.side_of(s);
        let lad = self@.side(s);
        assert forall|l: int| 0 <= l < lad.len() implies (#[trigger] lad[l]).len()
            == side.levels()[l].order_count by {
            assert(side.level_linked(self.arena.slots(), l));
        }
        if side.best_idx() == NIL {
            if best_level(s, lad) is Some {
                let b = best_level(s, lad)->0;
                assert(is_best_level(s, lad, b));
                assert(side.levels()[b].order_count == 0);
            }
        } else {
            let b = side.best_idx() as int;
            assert forall|j: int| 0 <= j < lad.len() && (#[trigger] lad[j]).len() > 0 implies match s {
                Side::Bid => j <= b,
                Side::Ask => j >= b,
            } by {
                assert(side.levels()[j].order_count > 0);
            }
            lemma_best_unique(s, lad, b);
        }
    }

    /// Walk one level's FIFO oldest-first, filling up to `qty`.
    /// Returns (remaining, killed by self-trade prevention).
    #[verifier::spinoff_prover]
    #[verifier::rlimit(60)]
    fn fill_at_level(
        &mut self,
        level_idx: u32,
        qty: u64,
        t: &Taker,
        out: &mut EventBuffer,
    ) -> (r: (u64, bool))
        requires
            old(self).wf(),
            old(out).wf(),
            is_best_level(
                t.side.opposite(),
                old(self)@.side(t.side.opposite()),
                level_idx as int,
            ),
            crosses_at(t.side, t.price.0 as int, old(self).cfg.price_at(level_idx as int)),
        ensures
            final(self).wf(),
            final(out).wf(),
            final(out).limit() == old(out).limit(),
            final(self).arena.live_len() <= old(self).arena.live_len(),
            forall|id: u64| #[trigger]
                final(self).index@.contains_key(id) ==> old(self).index@.contains_key(id),
            ({
                let opp = t.side.opposite();
                let l0 = old(self)@.side(opp);
                let l1 = final(self)@.side(opp);
                let w = sweep(*t, l0, qty);
                &&& final(self)@ == old(self)@.with_side(opp, l1)
                &&& order_total(l1) <= order_total(l0)
                &&& if r.1 {
                    &&& w.killed
                    &&& w.ladder == l1
                    &&& w.remaining == r.0
                    &&& final(out)@ == clip(old(out)@ + w.events, old(out).limit())
                } else {
                    &&& r.0 == 0 || l1[level_idx as int].len() == 0
                    &&& r.0 == 0 || order_total(l1) < order_total(l0)
                    &&& l1.len() == l0.len()
                    &&& forall|j: int|
                        0 <= j < l0.len() && j != level_idx ==> #[trigger] l1[j] == l0[j]
                    &&& carries_on(
                        *t,
                        l0,
                        qty,
                        old(out)@,
                        l1,
                        r.0,
                        final(out)@,
                        old(out).limit(),
                    )
                }
            }),
    {
        let ghost opp = t.side.opposite();
        let ghost l0 = self@.side(opp);
        let ghost out0 = out@;
        let ghost limit = out.limit();
        let ghost b = level_idx as int;
        let mut remaining = qty;
        proof {
            self.lemma_linked(opp, b, 0);
        }
        let mut cur = self.side(t.side.opposite()).level(level_idx).head;
        while cur != NIL && remaining > 0
            invariant
                self.wf(),
                out.wf(),
                out.limit() == limit,
                opp == t.side.opposite(),
                b == level_idx,
                self@ == old(self)@.with_side(opp, self@.side(opp)),
                l0 == old(self)@.side(opp),
                0 <= b < l0.len() == self@.side(opp).len(),
                l0[b].len() > 0,
                forall|j: int|
                    0 <= j < l0.len() && j != b ==> #[trigger] self@.side(opp)[j] == l0[j],
                crosses_at(t.side, t.price.0 as int, self.cfg.price_at(b)),
                cur == succ(self.chains(opp)[b], -1),
                cur != NIL ==> is_best_level(opp, self@.side(opp), b),
                self.arena.live_len() <= old(self).arena.live_len(),
                forall|id: u64| #[trigger]
                    self.index@.contains_key(id) ==> old(self).index@.contains_key(id),
                self@.side(opp)[b].len() <= l0[b].len(),
                order_total(self@.side(opp)) - self@.side(opp)[b].len() == order_total(l0)
                    - l0[b].len(),
                carries_on(*t, l0, qty, out0, self@.side(opp), remaining, out@, limit),
                out0 == old(out)@,
                limit == old(out).limit(),
            decreases self@.side(opp)[b].len(), remaining,
        {
            let ghost lad = self@.side(opp);
            let ghost c = self.chains(opp)[b];
            let ghost maker = lad[b][0];
            let ghost before = out@;
            let ghost wanted = remaining;
            let ghost mid = *self;
            proof {
                self.lemma_linked(opp, b, 0);
                assert(self.placed(opp, b, self.chains(opp)[b][0]));
                lemma_best_unique(opp, lad, b);
                assert(c[0] == cur);
                assert(maker == order_of(self.arena.slots()[cur as int]));
                assert(lad[b].remove(0) =~= lad[b].skip(1));
                assert(lad.update(b, lad[b].remove(0)) == drop_head(lad, b));
                lemma_total_update(lad, b, lad[b].remove(0));
                if lad[b].len() > 1 {
                    lemma_best_kept(opp, lad, b, lad[b].remove(0));
                }
                assert(self.arena.slots()[c[0] as int].next == succ(c, 0));
                assert(t.reaches(maker));
            }
            // Cache `next` BEFORE any free: freeing pushes the slot onto
            // the free-list, which overwrites `next`.
            let slot = *self.arena.slot(cur);
            let next = slot.next;

            // -- Self-trade prevention --
            if t.stp != SelfTradePrevention::Disabled && slot.trader == t.trader.0 {
                let resting = OutputEvent::Cancelled {
                    seq: t.seq,
                    order_id: OrderId(slot.order_id),
                    remaining: Qty(slot.remaining),
                    reason: CancelReason::SelfTradePrevention,
                };
                let incoming = OutputEvent::Cancelled {
                    seq: t.seq,
                    order_id: t.id,
                    remaining: Qty(remaining),
                    reason: CancelReason::SelfTradePrevention,
                };
                match t.stp {
                    SelfTradePrevention::CancelResting => {
                        self.unlink_and_free(cur);
                        out.push(resting);
                        cur = next;
                        proof {
                            lemma_clip_one(
                                before,
                                resting,
                                sweep(*t, drop_head(lad, b), wanted).events,
                                limit,
                            );
                        }
                    },
                    SelfTradePrevention::CancelAggressor => {
                        out.push(incoming);
                        proof {
                            assert(before.push(incoming) =~= before + seq![incoming]);
                        }
                        return (remaining, true);
                    },
                    _ => {
                        self.unlink_and_free(cur);
                        out.push(resting);
                        out.push(incoming);
                        proof {
                            lemma_clip_one(before, resting, seq![incoming], limit);
                            let one = clip(before.push(resting), limit);
                            assert(one.push(incoming) =~= one + seq![incoming]);
                            assert(seq![resting] + seq![incoming] =~= seq![resting, incoming]);
                        }
                        return (remaining, true);
                    },
                }
            } else {
                // -- Fill. ALWAYS at the resting (maker) order's price. --
                let fill_qty = if remaining < slot.remaining {
                    remaining
                } else {
                    slot.remaining
                };
                let fill = OutputEvent::Fill {
                    seq: t.seq,
                    taker: t.id,
                    maker: OrderId(slot.order_id),
                    price: Price(slot.price),
                    qty: Qty(fill_qty),
                    taker_side: t.side,
                };
                out.push(fill);
                remaining -= fill_qty;
                if fill_qty == slot.remaining {
                    // Maker fully filled: unlink and recycle. No zero-qty ghosts.
                    self.unlink_and_free(cur);
                    cur = next;
                    proof {
                        lemma_clip_one(
                            before,
                            fill,
                            sweep(*t, drop_head(lad, b), remaining).events,
                            limit,
                        );
                    }
                } else {
                    self.reduce(cur, fill_qty);
                    proof {
                        let left = SnapOrder {
                            remaining: (maker.remaining - wanted) as u64,
                            ..maker
                        };
                        lemma_best_kept(opp, lad, b, lad[b].update(0, left));
                        lemma_total_update(lad, b, lad[b].update(0, left));
                        lemma_clip_one(before, fill, Seq::empty(), limit);
                        assert(seq![fill] + Seq::<OutputEvent>::empty() =~= seq![fill]);
                    }
                }
            }
        }
        proof {
            self.lemma_chain_empty(opp, b, cur);
        }
        (remaining, false)
    }

    /// A FIFO without a first slot is empty.
    proof fn lemma_chain_empty(&self, s: Side, l: int, first: u32)
        requires
            self.wf(),
            0 <= l < self.cfg.num_levels,
            first == succ(self.chains(s)[l], -1),
        ensures
            first == NIL ==> self.chains(s)[l].len() == 0,
    {
        if self.chains(s)[l].len() > 0 {
            self.lemma_linked(s, l, 0);
        }
    }

    /// The cross loop: consume opposite levels best-first while the order
    /// is marketable. Returns (remaining, killed by self-trade prevention).
    fn cross(&mut self, t: &Taker, qty: u64, out: &mut EventBuffer) -> (r: (u64, bool))
        requires
            old(self).wf(),
            old(out).wf(),
        ensures
            final(self).wf(),
            final(out).wf(),
            final(out).limit() == old(out).limit(),
            final(self).arena.live_len() <= old(self).arena.live_len(),
            forall|id: u64| #[trigger]
                final(self).index@.contains_key(id) ==> old(self).index@.contains_key(id),
            ({
                let opp = t.side.opposite();
                let w = sweep(*t, old(self)@.side(opp), qty);
                &&& final(self)@ == old(self)@.with_side(opp, w.ladder)
                &&& r.0 == w.remaining
                &&& r.1 == w.killed
                &&& final(out)@ == clip(old(out)@ + w.events, old(out).limit())
            }),
    {
        let opp = t.side.opposite();
        let ghost l0 = self@.side(opp);
        let ghost limit = out.limit();
        let mut remaining = qty;
        while remaining > 0
            invariant
                self.wf(),
                out.wf(),
                out.limit() == limit,
                limit == old(out).limit(),
                opp == t.side.opposite(),
                l0 == old(self)@.side(opp),
                self@ == old(self)@.with_side(opp, self@.side(opp)),
                self.arena.live_len() <= old(self).arena.live_len(),
                forall|id: u64| #[trigger]
                    self.index@.contains_key(id) ==> old(self).index@.contains_key(id),
                carries_on(*t, l0, qty, old(out)@, self@.side(opp), remaining, out@, limit),
            ensures
                sweep(*t, self@.side(opp), remaining) == (Sweep {
                    ladder: self@.side(opp),
                    remaining,
                    killed: false,
                    events: Seq::empty(),
                }),
            decreases order_total(self@.side(opp)), remaining,
        {
            let best = self.side(opp).best();
            proof {
                self.lemma_best(opp);
            }
            if best == NIL {
                break;  // opposite side is empty
            }
            proof {
                assert(self.placed(opp, best as int, self.chains(opp)[best as int][0]));
                self.cfg.lemma_price_fits(best);
            }
            if !crosses(t.side, t.price, self.cfg.idx_to_price(best)) {
                break;  // no longer marketable
            }
            let (left, killed) = self.fill_at_level(best, remaining, t, out);
            remaining = left;
            if killed {
                return (remaining, true);
            }
        }
        proof {
            assert(out@ + Seq::<OutputEvent>::empty() =~= out@);
        }
        (remaining, false)
    }

    /// The number of orders at a level of the mathematical book.
    pub(crate) proof fn lemma_level_len(&self, s: Side, l: int)
        requires
            self.parts_ok(),
            0 <= l < self.cfg.num_levels,
        ensures
            self@.side(s)[l].len() == self.side_of(s).levels()[l].order_count,
            self.chains(s)[l].len() == self.side_of(s).levels()[l].order_count,
            queue_qty(self@.side(s)[l]) == self.side_of(s).levels()[l].total_qty,
            self.side_of(s).levels()[l].head == succ(self.chains(s)[l], -1),
            bit_at(self.side_of(s).words(), l) <==> self@.side(s)[l].len() > 0,
    {
        assert(self.side_of(s).level_linked(self.arena.slots(), l));
        lemma_queue_qty(self.arena.slots(), self.chains(s)[l]);
    }

    /// Going on to the next occupied level of a side.
    proof fn lemma_next_worse(&self, s: Side, g: Ladder, lvl: u32, next: u32)
        requires
            self.wf(),
            lvl < self.cfg.num_levels,
            walked(s, self@.side(s), g, lvl),
            g[lvl as int].len() == 0,
            match s {
                Side::Bid => {
                    &&& next == NIL ==> forall|j: int|
                        0 <= j < lvl ==> !#[trigger] bit_at(self.side_of(s).words(), j)
                    &&& next != NIL ==> next < lvl && bit_at(self.side_of(s).words(), next as int)
                        && forall|j: int|
                        next < j < lvl ==> !#[trigger] bit_at(self.side_of(s).words(), j)
                },
                Side::Ask => {
                    &&& next == NIL ==> forall|j: int|
                        lvl < j < self.cfg.num_levels ==> !#[trigger] bit_at(
                            self.side_of(s).words(),
                            j,
                        )
                    &&& next != NIL ==> lvl < next < self.cfg.num_levels && bit_at(
                        self.side_of(s).words(),
                        next as int,
                    ) && forall|j: int|
                        lvl < j < next ==> !#[trigger] bit_at(self.side_of(s).words(), j)
                },
            },
        ensures
            walked(s, self@.side(s), g, next),
            next != NIL ==> next < self.cfg.num_levels && g[next as int] == self@.side(s)[next as int]
                && g[next as int].len() > 0,
    {
        let l = self@.side(s);
        assert forall|j: int| 0 <= j < l.len() && j != next implies if ahead(s, j, next) {
            (#[trigger] g[j]).len() == 0
        } else {
            g[j] == l[j]
        } by {
            self.lemma_level_len(s, j);
            if j != lvl && ahead(s, j, next) && !ahead(s, j, lvl) {
                assert(!bit_at(self.side_of(s).words(), j));
            }
        }
        if next != NIL {
            self.lemma_level_len(s, next as int);
        }
    }

    /// Fill-or-kill pre-check: walk levels best-first, sum available quantity,
    /// mutate NOTHING. `CancelResting` skips own orders;
    /// `CancelAggressor` and `CancelBoth` stop at the first own order (the
    /// aggressor would die there).
    fn can_fill_fully(&self, t: &Taker, qty: Qty) -> (r: bool)
        requires
            self.wf(),
        ensures
            r == (available(*t, self@.side(t.side.opposite())) >= qty.0),
    {
        let opp = self.side(t.side.opposite());
        let ghost s = t.side.opposite();
        let ghost l = self@.side(s);
        let ghost mut g = l;
        let mut sum: u128 = 0;
        let mut lvl = opp.best();
        proof {
            self.lemma_best(s);
            if lvl == NIL {
                lemma_best_none(s, l);
            } else {
                assert forall|j: int| 0 <= j < l.len() && j != lvl && ahead(s, j, lvl) implies (
                #[trigger] l[j]).len() == 0 by {}
            }
        }
        while lvl != NIL
            invariant
                self.wf(),
                *opp == self.side_of(s),
                s == t.side.opposite(),
                l == self@.side(s),
                walked(s, l, g, lvl),
                lvl != NIL ==> lvl < self.cfg.num_levels && g[lvl as int] == l[lvl as int]
                    && g[lvl as int].len() > 0,
                available(*t, l) == sum + available(*t, g),
                order_total(g) <= order_total(l) <= u32::MAX,
                sum <= (order_total(l) - order_total(g)) * 0xffff_ffff_ffff_ffff,
            ensures
                available(*t, l) == sum,
            decreases order_total(g),
        {
            let ghost b = lvl as int;
            let ghost c = self.chains(s)[b];
            let ghost size = order_total(g);
            proof {
                self.lemma_level_len(s, b);
                assert forall|j: int| 0 <= j < g.len() && (#[trigger] g[j]).len() > 0 implies match s {
                    Side::Bid => j <= b,
                    Side::Ask => j >= b,
                } by {}
                assert(is_best_level(s, g, b));
                lemma_best_unique(s, g, b);
                assert(self.placed(s, b, self.chains(s)[b][0]));
                self.cfg.lemma_price_fits(lvl);
                assert(g[b][0].price == self.cfg.price_at(b));
            }
            if !crosses(t.side, t.price, self.cfg.idx_to_price(lvl)) {
                break;
            }
            proof {
                assert forall|k: int| 0 <= k < l[b].len() implies t.reaches(#[trigger] l[b][k]) by {
                    assert(self.placed(s, b, self.chains(s)[b][k]));
                }
            }
            if t.stp == SelfTradePrevention::Disabled {
                // The level aggregate is exactly what's fillable.
                proof {
                    lemma_available_level(*t, g, b);
                    lemma_total_update(g, b, Seq::empty());
                    lemma_queued_bound(self.arena.slots(), c);
                    assert(self.side_of(s).level_linked(self.arena.slots(), b));
                    g = g.update(b, Seq::empty());
                }
                sum += opp.level(lvl).total_qty;
            } else {
                let mut cur = opp.level(lvl).head;
                let ghost mut k: int = 0;
                proof {
                    assert(l[b].skip(0) =~= l[b]);
                }
                while cur != NIL
                    invariant
                        self.wf(),
                        *opp == self.side_of(s),
                        s == t.side.opposite(),
                        l == self@.side(s),
                        b == lvl,
                        lvl < self.cfg.num_levels,
                        c == self.chains(s)[b],
                        l[b].len() == c.len(),
                        walked(s, l, g, lvl),
                        0 <= k <= c.len(),
                        g[b] == l[b].skip(k),
                        cur == succ(c, k - 1),
                        t.stp != SelfTradePrevention::Disabled,
                        forall|k: int| 0 <= k < l[b].len() ==> t.reaches(#[trigger] l[b][k]),
                        available(*t, l) == sum + available(*t, g),
                        order_total(g) <= order_total(l) <= u32::MAX,
                        order_total(g) == size - k,
                        size <= order_total(l),
                        sum <= (order_total(l) - order_total(g)) * 0xffff_ffff_ffff_ffff,
                    ensures
                        k == c.len(),
                    decreases c.len() - k,
                {
                    proof {
                        if k < c.len() {
                            self.lemma_linked(s, b, k);
                            assert(self.arena.slots()[c[k] as int].next == succ(c, k));
                            assert(g[b][0] == l[b][k]);
                            assert forall|j: int| 0 <= j < g.len() && (#[trigger] g[j]).len()
                                > 0 implies match s {
                                Side::Bid => j <= b,
                                Side::Ask => j >= b,
                            } by {}
                            assert(is_best_level(s, g, b));
                            lemma_best_unique(s, g, b);
                            assert(t.reaches(l[b][k]));
                            lemma_total_update(g, b, g[b].skip(1));
                            assert(g[b].skip(1) =~= l[b].skip(k + 1));
                        }
                    }
                    let slot = self.arena.slot(cur);
                    if slot.trader == t.trader.0 {
                        if t.stp != SelfTradePrevention::CancelResting {
                            return sum >= qty.0 as u128;
                        }
                    } else {
                        sum += slot.remaining as u128;
                        if sum >= qty.0 as u128 {
                            return true;
                        }
                    }
                    cur = slot.next;
                    proof {
                        g = drop_head(g, b);
                        k = k + 1;
                    }
                }
            }
            if sum >= qty.0 as u128 {
                return true;
            }
            let next = opp.next_occupied_worse(lvl);
            proof {
                assert(g[b].len() == 0);
                self.lemma_next_worse(s, g, lvl, next);
            }
            lvl = next;
        }
        sum >= qty.0 as u128
    }

    /// Taking the order in slot `idx` off is removing its id.
    proof fn lemma_unlinked_is_removed(&self, idx: u32)
        requires
            self.wf(),
            self.arena.live(idx),
        ensures
            ({
                let slot = self.arena.slots()[idx as int];
                let s = Side::from_u8(slot.side);
                let l = slot.level_idx as int;
                let k = self.chains(s)[l].index_of(idx);
                let lad = self@.side(s);
                self@.with_side(s, lad.update(l, lad[l].remove(k))) == self@.removed(slot.order_id)
            }),
    {
        let p = self.lemma_place(idx);
        self.lemma_model_wf();
        lemma_removed(self@, p.0, p.1, p.2);
    }

    /// Apply one input event; output events are appended to `out`.
    /// This is the entire hot path. It never allocates, never panics on
    /// input, and never reads anything but (state, event).
    pub fn apply(&mut self, ev: InputEvent, out: &mut EventBuffer)
        requires
            old(self).wf(),
            old(out).wf(),
        ensures
            final(self).wf(),
            final(out).wf(),
            final(out).limit() == old(out).limit(),
            final(self)@ == step(old(self)@, ev).book,
            final(out)@ == clip(old(out)@ + step(old(self)@, ev).events, old(out).limit()),
    {
        match ev {
            InputEvent::New { seq, order_id, trader, side, price, qty, tif, stp } => {
                let t = Taker { seq, id: order_id, trader, side, price, stp };
                self.apply_new(&t, qty, tif, out)
            },
            InputEvent::Cancel { seq, order_id, trader } => self.apply_cancel(
                seq,
                order_id,
                trader,
                out,
            ),
            InputEvent::Modify { seq, order_id, trader, new_price, new_qty } => self.apply_modify(
                seq,
                order_id,
                trader,
                new_price,
                new_qty,
                out,
            ),
        }
    }

    fn apply_new(&mut self, t: &Taker, qty: Qty, tif: TimeInForce, out: &mut EventBuffer)
        requires
            old(self).wf(),
            old(out).wf(),
        ensures
            final(self).wf(),
            final(out).wf(),
            final(out).limit() == old(out).limit(),
            final(self)@ == step_new(old(self)@, *t, qty, tif).book,
            final(out)@ == clip(
                old(out)@ + step_new(old(self)@, *t, qty, tif).events,
                old(out).limit(),
            ),
    {
        let ghost before = out@;
        let ghost limit = out.limit();
        proof {
            self.lemma_index(t.id.0);
        }
        // -- Validation, in the fixed order both engines share. --
        if qty.0 == 0 {
            out.push(reject(t.seq, t.id, RejectReason::ZeroQty));
            proof {
                lemma_one(before, refused(self@, t.seq, t.id, RejectReason::ZeroQty).events);
            }
            return;
        }
        if self.index.contains(t.id.0) {
            out.push(reject(t.seq, t.id, RejectReason::DuplicateOrderId));
            proof {
                lemma_one(
                    before,
                    refused(self@, t.seq, t.id, RejectReason::DuplicateOrderId).events,
                );
            }
            return;
        }
        let level_idx = match self.cfg.price_to_idx(t.price) {
            Some(i) => i,
            None => {
                out.push(reject(t.seq, t.id, RejectReason::PriceOutOfBounds));
                proof {
                    lemma_one(
                        before,
                        refused(self@, t.seq, t.id, RejectReason::PriceOutOfBounds).events,
                    );
                }
                return;
            },
        };
        if self.arena.is_full() {
            out.push(reject(t.seq, t.id, RejectReason::ArenaFull));
            proof {
                lemma_one(before, refused(self@, t.seq, t.id, RejectReason::ArenaFull).events);
            }
            return;
        }
        if tif == TimeInForce::Fok && !self.can_fill_fully(t, qty) {
            out.push(reject(t.seq, t.id, RejectReason::FokUnfillable));
            proof {
                lemma_one(
                    before,
                    refused(self@, t.seq, t.id, RejectReason::FokUnfillable).events,
                );
            }
            return;
        }
        let ack = OutputEvent::Ack { seq: t.seq, order_id: t.id };
        out.push(ack);
        self.settle(t, level_idx, qty.0, tif, out);
        proof {
            lemma_clip_one(before, ack, enter(old(self)@, *t, qty.0, tif).events, limit);
        }
    }

    /// Cross, then rest or kill what is left.
    fn settle(
        &mut self,
        t: &Taker,
        level_idx: u32,
        qty: u64,
        tif: TimeInForce,
        out: &mut EventBuffer,
    )
        requires
            old(self).wf(),
            old(out).wf(),
            old(self).arena.live_len() < old(self).cfg.max_live_orders,
            !old(self).index@.contains_key(t.id.0),
            old(self).cfg.on_level(t.price, level_idx as int),
        ensures
            final(self).wf(),
            final(out).wf(),
            final(out).limit() == old(out).limit(),
            final(self)@ == enter(old(self)@, *t, qty, tif).book,
            final(out)@ == clip(
                old(out)@ + enter(old(self)@, *t, qty, tif).events,
                old(out).limit(),
            ),
    {
        let ghost before = out@;
        let ghost limit = out.limit();
        let (remaining, killed) = self.cross(t, qty, out);
        if killed || remaining == 0 {
            return;
        }
        match tif {
            TimeInForce::Gtc => self.rest(
                t.id,
                t.trader,
                t.side,
                t.price,
                level_idx,
                remaining,
                qty,
                t.stp,
            ),
            // A fill-or-kill order was checked beforehand and never gets here
            // with anything left.
            TimeInForce::Ioc | TimeInForce::Fok => {
                let ghost mid = out@;
                let ev = OutputEvent::Cancelled {
                    seq: t.seq,
                    order_id: t.id,
                    remaining: Qty(remaining),
                    reason: CancelReason::Ioc,
                };
                out.push(ev);
                proof {
                    let w = sweep(*t, old(self)@.side(t.side.opposite()), qty);
                    lemma_clip_append(before, w.events, seq![ev], limit);
                    assert(mid.push(ev) =~= mid + seq![ev]);
                    assert(w.events.push(ev) =~= w.events + seq![ev]);
                }
            },
        }
    }

    fn apply_cancel(
        &mut self,
        seq: SeqNo,
        order_id: OrderId,
        trader: TraderId,
        out: &mut EventBuffer,
    )
        requires
            old(self).wf(),
            old(out).wf(),
        ensures
            final(self).wf(),
            final(out).wf(),
            final(out).limit() == old(out).limit(),
            final(self)@ == step_cancel(old(self)@, seq, order_id, trader).book,
            final(out)@ == clip(
                old(out)@ + step_cancel(old(self)@, seq, order_id, trader).events,
                old(out).limit(),
            ),
    {
        let ghost before = out@;
        proof {
            self.lemma_index(order_id.0);
            lemma_one(before, step_cancel(self@, seq, order_id, trader).events);
        }
        let idx = match self.index.get(order_id.0) {
            Some(i) => i,
            None => {
                out.push(reject(seq, order_id, RejectReason::UnknownOrderId));
                return;
            },
        };
        let slot = *self.arena.slot(idx);
        if slot.trader != trader.0 {
            out.push(reject(seq, order_id, RejectReason::WrongTrader));
            return;
        }
        proof {
            self.lemma_unlinked_is_removed(idx);
        }
        self.unlink_and_free(idx);
        out.push(
            OutputEvent::Cancelled {
                seq,
                order_id,
                remaining: Qty(slot.remaining),
                reason: CancelReason::User,
            },
        );
    }

    /// A modify: cancel and new, in one instruction.
    pub fn apply_modify(
        &mut self,
        seq: SeqNo,
        order_id: OrderId,
        trader: TraderId,
        new_price: Price,
        new_qty: Qty,
        out: &mut EventBuffer,
    )
        requires
            old(self).wf(),
            old(out).wf(),
        ensures
            final(self).wf(),
            final(out).wf(),
            final(out).limit() == old(out).limit(),
            final(self)@ == step_modify(
                old(self)@,
                seq,
                order_id,
                trader,
                new_price,
                new_qty,
            ).book,
            final(out)@ == clip(
                old(out)@ + step_modify(
                    old(self)@,
                    seq,
                    order_id,
                    trader,
                    new_price,
                    new_qty,
                ).events,
                old(out).limit(),
            ),
    {
        let ghost before = out@;
        let ghost limit = out.limit();
        proof {
            self.lemma_index(order_id.0);
            lemma_one(
                before,
                step_modify(self@, seq, order_id, trader, new_price, new_qty).events,
            );
        }
        // Validate everything BEFORE touching the book: a rejected modify
        // must leave the book untouched.
        let idx = match self.index.get(order_id.0) {
            Some(i) => i,
            None => {
                out.push(reject(seq, order_id, RejectReason::UnknownOrderId));
                return;
            },
        };
        let slot = *self.arena.slot(idx);
        if slot.trader != trader.0 {
            out.push(reject(seq, order_id, RejectReason::WrongTrader));
            return;
        }
        if new_qty.0 == 0 {
            out.push(reject(seq, order_id, RejectReason::ZeroQty));
            return;
        }
        let level_idx = match self.cfg.price_to_idx(new_price) {
            Some(i) => i,
            None => {
                out.push(reject(seq, order_id, RejectReason::PriceOutOfBounds));
                return;
            },
        };

        // Modify = cancel + new. The new leg re-enters the match loop, so
        // it ALWAYS loses time priority, even at the same price.
        proof {
            self.lemma_unlinked_is_removed(idx);
        }
        self.unlink_and_free(idx);
        let gone = OutputEvent::Cancelled {
            seq,
            order_id,
            remaining: Qty(slot.remaining),
            reason: CancelReason::User,
        };
        out.push(gone);
        let ack = OutputEvent::Ack { seq, order_id };
        let ghost mid = out@;
        out.push(ack);
        let t = Taker {
            seq,
            id: order_id,
            trader,
            side: Side::from_u8(slot.side),
            price: new_price,
            stp: SelfTradePrevention::from_u8(slot.stp),
        };
        self.settle(&t, level_idx, new_qty.0, TimeInForce::Gtc, out);
        proof {
            let e = enter(
                old(self)@.removed(order_id.0),
                t,
                new_qty.0,
                TimeInForce::Gtc,
            ).events;
            lemma_clip_one(mid, ack, e, limit);
            lemma_clip_one(before, gone, seq![ack] + e, limit);
            assert(seq![gone] + (seq![ack] + e) =~= seq![gone, ack] + e);
        }
    }

    // ---- Introspection (cold paths: tests, TUI, snapshots) ----

    /// The highest price bid, `None` when there is no bid.
    pub fn best_bid(&self) -> (p: Option<Price>)
        requires
            self.wf(),
        ensures
            p == self@.best_price(Side::Bid),
    {
        self.best_price(Side::Bid)
    }

    /// The lowest price asked, `None` when there is no ask.
    pub fn best_ask(&self) -> (p: Option<Price>)
        requires
            self.wf(),
        ensures
            p == self@.best_price(Side::Ask),
    {
        self.best_price(Side::Ask)
    }

    fn best_price(&self, s: Side) -> (p: Option<Price>)
        requires
            self.wf(),
        ensures
            p == self@.best_price(s),
    {
        let b = self.side(s).best();
        proof {
            self.lemma_best(s);
        }
        if b == NIL {
            return None;
        }
        proof {
            assert(self.placed(s, b as int, self.chains(s)[b as int][0]));
            self.cfg.lemma_price_fits(b);
        }
        Some(self.cfg.idx_to_price(b))
    }

    /// How many orders rest on the book.
    pub fn live_count(&self) -> (n: u32)
        requires
            self.wf(),
        ensures
            n == self@.live(),
    {
        self.arena.len()
    }

    /// Top-of-book depth ladder: up to `n` occupied levels best-first as
    /// (price, total quantity, order count). Cold path: TUI and tooling.
    pub fn depth(&self, side: Side, n: usize) -> (r: Vec<(Price, u128, u32)>)
        requires
            self.wf(),
        ensures
            r@ == clip(rows(self@.cfg, side, self@.side(side), 0), n as nat),
    {
        let bs = self.side(side);
        let mut out: Vec<(Price, u128, u32)> = Vec::new();
        let ghost l = self@.side(side);
        let ghost len = l.len() as int;
        let ghost all = rows(self.cfg, side, l, 0);
        let mut lvl = bs.best();
        proof {
            self.lemma_best(side);
            if lvl == NIL {
                lemma_best_none(side, l);
                lemma_rows_skip(self.cfg, side, l, 0, len);
                assert(rows(self.cfg, side, l, len) =~= Seq::empty());
            } else {
                lemma_rows_skip(self.cfg, side, l, 0, rung(side, len, lvl as int));
            }
        }
        while lvl != NIL && out.len() < n
            invariant
                self.wf(),
                *bs == self.side_of(side),
                l == self@.side(side),
                len == l.len(),
                all == rows(self.cfg, side, l, 0),
                out@.len() <= n,
                lvl == NIL ==> all == out@,
                lvl != NIL ==> lvl < self.cfg.num_levels && l[lvl as int].len() > 0 && all == out@
                    + rows(self.cfg, side, l, rung(side, len, lvl as int)),
            decreases
                    if lvl == NIL {
                        0
                    } else {
                        len - rung(side, len, lvl as int)
                    },
        {
            let ghost before = out@;
            let ghost k = rung(side, len, lvl as int);
            proof {
                self.lemma_level_len(side, lvl as int);
                assert(self.placed(side, lvl as int, self.chains(side)[lvl as int][0]));
                self.cfg.lemma_price_fits(lvl);
            }
            let lv = bs.level(lvl);
            out.push((self.cfg.idx_to_price(lvl), lv.total_qty, lv.order_count));
            let next = bs.next_occupied_worse(lvl);
            proof {
                assert forall|j: int|
                    0 <= j < len && j != next && (match side {
                        Side::Bid => j < lvl && (next == NIL || j > next),
                        Side::Ask => j > lvl && (next == NIL || j < next),
                    }) implies (#[trigger] l[j]).len() == 0 by {
                    self.lemma_level_len(side, j);
                    assert(!bit_at(bs.words(), j));
                }
                if next == NIL {
                    lemma_rows_skip(self.cfg, side, l, k + 1, len);
                    assert(rows(self.cfg, side, l, len) =~= Seq::empty());
                } else {
                    self.lemma_level_len(side, next as int);
                    lemma_rows_skip(self.cfg, side, l, k + 1, rung(side, len, next as int));
                }
                assert(out@ =~= before + seq![out@[before.len() as int]]);
                assert(all =~= out@ + rows(self.cfg, side, l, k + 1));
            }
            lvl = next;
        }
        proof {
            if lvl != NIL {
                assert(clip(all, n as nat) =~= out@);
            }
        }
        out
    }
}

/// One event, appended.
proof fn lemma_one(before: Seq<OutputEvent>, events: Seq<OutputEvent>)
    ensures
        events.len() == 1 ==> before.push(events[0]) == before + events,
{
    if events.len() == 1 {
        assert(before.push(events[0]) =~= before + events);
    }
}

/// A refusal.
fn reject(seq: SeqNo, order_id: OrderId, reason: RejectReason) -> (ev: OutputEvent)
    ensures
        ev == (OutputEvent::Rejected { seq, order_id, reason }),
{
    OutputEvent::Rejected { seq, order_id, reason }
}

} // verus!
