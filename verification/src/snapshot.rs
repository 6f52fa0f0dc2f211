//! Snapshot / restore: crash recovery and fast-forward replay.
//!
//! A snapshot is the SEMANTIC book state: live orders in canonical
//! order (levels ascending, FIFO head to tail), never arena indices, so
//! restoring a snapshot rebuilds an equivalent book even though the
//! physical slot assignment may differ.

use crate::arena::{succ, NIL};
use crate::book::OrderBook;
use crate::config::BookConfig;
use crate::laws::{law_empty_valid, lemma_rested_wf};
use crate::model::{lemma_total_part, lemma_total_update, order_total, BookModel, Ladder};
use crate::types::{OrderId, Price, SelfTradePrevention, Side, TraderId};
use vstd::prelude::*;

verus! {

/// One resting order, as the book means it.
#[derive(Copy, Clone, Debug, PartialEq, Eq, Structural)]
pub struct SnapOrder {
    pub order_id: u64,
    pub trader: u32,
    pub side: Side,
    pub price: i64,
    pub remaining: u64,
    pub original_qty: u64,
    pub stp: SelfTradePrevention,
}

/// The semantic state of a book.
#[derive(Clone, Debug)]
pub struct Snapshot {
    pub cfg: BookConfig,
    /// Live orders in canonical order. Within a level this is FIFO order,
    /// which is exactly what restore needs to rebuild time priority.
    pub orders: Vec<SnapOrder>,
}

/// The orders of a ladder in canonical order: levels ascending, oldest first.
pub open spec fn listed(l: Ladder) -> Seq<SnapOrder>
    decreases l.len(),
{
    if l.len() == 0 {
        Seq::empty()
    } else {
        listed(l.drop_last()) + l.last()
    }
}

/// The orders of a book in canonical order: bids, then asks.
pub open spec fn all_orders(m: BookModel) -> Seq<SnapOrder> {
    listed(m.bids) + listed(m.asks)
}

/// Why an order cannot be put back on the book `m`, if it cannot.
pub open spec fn restore_fault(m: BookModel, o: SnapOrder) -> Option<Seq<char>> {
    if m.cfg.level_of(Price(o.price)) is None {
        Some("snapshot order price off the grid"@)
    } else if o.remaining == 0 {
        Some("snapshot contains a zero-qty order"@)
    } else if m.has(o.order_id) {
        Some("snapshot contains a duplicate order id"@)
    } else if m.live() >= m.cfg.max_live_orders {
        Some("snapshot exceeds book capacity"@)
    } else {
        None
    }
}

/// Putting orders back on a book, one behind the other, without matching;
/// the first that cannot be put back is the fault.
pub open spec fn relinked(m: BookModel, orders: Seq<SnapOrder>) -> Result<BookModel, Seq<char>>
    decreases orders.len(),
{
    if orders.len() == 0 {
        Ok(m)
    } else {
        match relinked(m, orders.drop_last()) {
            Err(e) => Err(e),
            Ok(b) => match restore_fault(b, orders.last()) {
                Some(e) => Err(e),
                None => Ok(b.rested(orders.last())),
            },
        }
    }
}

/// What a snapshot restores to.
pub open spec fn restored(cfg: BookConfig, orders: Seq<SnapOrder>) -> Result<
    BookModel,
    Seq<char>,
> {
    relinked(BookModel::empty(cfg), orders)
}

/// Once there is a fault, what follows does not matter.
proof fn lemma_relinked_err(m: BookModel, a: Seq<SnapOrder>, b: Seq<SnapOrder>)
    requires
        relinked(m, a) is Err,
    ensures
        relinked(m, a + b) == relinked(m, a),
    decreases b.len(),
{
    if b.len() == 0 {
        assert(a + b =~= a);
    } else {
        assert((a + b).drop_last() =~= a + b.drop_last());
        lemma_relinked_err(m, a, b.drop_last());
    }
}

/// Putting back in two parts.
proof fn lemma_relinked_concat(m: BookModel, a: Seq<SnapOrder>, b: Seq<SnapOrder>)
    requires
        relinked(m, a) is Ok,
    ensures
        relinked(m, a + b) == relinked(relinked(m, a)->Ok_0, b),
    decreases b.len(),
{
    if b.len() == 0 {
        assert(a + b =~= a);
    } else {
        assert((a + b).drop_last() =~= a + b.drop_last());
        lemma_relinked_concat(m, a, b.drop_last());
    }
}

impl OrderBook {
    /// Capture the semantic state. Cold path; allocates freely.
    pub fn snapshot(&self) -> (r: Snapshot)
        requires
            self.wf(),
        ensures
            r.cfg == self@.cfg,
            r.orders@ == all_orders(self@),
    {
        let mut orders: Vec<SnapOrder> = Vec::with_capacity(self.arena.len() as usize);
        self.list_side(Side::Bid, &mut orders);
        proof {
            assert(Seq::<SnapOrder>::empty() + listed(self@.bids) =~= listed(self@.bids));
        }
        self.list_side(Side::Ask, &mut orders);
        Snapshot { cfg: self.cfg, orders }
    }

    fn list_side(&self, side: Side, orders: &mut Vec<SnapOrder>)
        requires
            self.wf(),
        ensures
            final(orders)@ == old(orders)@ + listed(self@.side(side)),
    {
        let ghost before = orders@;
        let ghost l = self@.side(side);
        let bs = self.side(side);
        let n = bs.num_levels();
        let mut i: u32 = 0;
        proof {
            assert(listed(l.take(0)) =~= Seq::empty());
            assert(before + listed(l.take(0)) =~= before);
        }
        while i < n
            invariant
                self.wf(),
                *bs == self.side_of(side),
                l == self@.side(side),
                n == self.cfg.num_levels == l.len(),
                i <= n,
                orders@ == before + listed(l.take(i as int)),
            decreases n - i,
        {
            let ghost mid = orders@;
            let ghost q = l[i as int];
            let ghost c = self.chains(side)[i as int];
            proof {
                self.lemma_level_len(side, i as int);
                assert(l.take(i + 1).drop_last() =~= l.take(i as int));
                assert(before + listed(l.take(i + 1)) =~= mid + q);
                assert(mid + q.take(0) =~= mid);
            }
            if bs.bit(i) {
                let mut cur = bs.level(i).head;
                let ghost mut k: int = 0;
                while cur != NIL
                    invariant
                        self.wf(),
                        i < self.cfg.num_levels,
                        c == self.chains(side)[i as int],
                        q == self@.side(side)[i as int],
                        c.len() == q.len(),
                        0 <= k <= c.len(),
                        cur == succ(c, k - 1),
                        orders@ == mid + q.take(k),
                    ensures
                        k == c.len(),
                    decreases c.len() - k,
                {
                    proof {
                        if k < c.len() {
                            self.lemma_linked(side, i as int, k);
                            assert(self.arena.slots()[c[k] as int].next == succ(c, k));
                            assert(self.placed(side, i as int, self.chains(side)[i as int][k]));
                        }
                    }
                    let s = self.arena.slot(cur);
                    orders.push(
                        SnapOrder {
                            order_id: s.order_id,
                            trader: s.trader,
                            side,
                            price: s.price,
                            remaining: s.remaining,
                            original_qty: s.original_qty,
                            stp: SelfTradePrevention::from_u8(s.stp),
                        },
                    );
                    cur = s.next;
                    proof {
                        assert(orders@ =~= mid + q.take(k + 1));
                        k = k + 1;
                        if k < c.len() {
                            self.lemma_linked(side, i as int, k);
                        }
                    }
                }
                proof {
                    assert(q.take(k) =~= q);
                }
            } else {
                proof {
                    assert(mid + q =~= mid);
                }
            }
            i += 1;
        }
        proof {
            assert(l.take(i as int) =~= l);
        }
    }

    /// Rebuild a book from a snapshot. Orders are linked directly (no
    /// matching): snapshot order preserves per-level FIFO, so time
    /// priority survives the round trip.
    pub fn restore(snap: &Snapshot) -> (r: Result<OrderBook, &'static str>)
        requires
            snap.cfg.wf(),
        ensures
            match r {
                Ok(b) => {
                    &&& b.wf()
                    &&& restored(snap.cfg, snap.orders@) == Ok::<_, Seq<char>>(b@)
                    &&& b@.cfg == snap.cfg
                    &&& stably_sorted(all_orders(b@), snap.orders@)
                    &&& b@.uncrossed() <==> bids_below_asks(snap.orders@)
                },
                Err(e) => restored(snap.cfg, snap.orders@) == Err::<BookModel, _>(e@),
            },
    {
        let mut book = OrderBook::new(snap.cfg);
        let ghost start = book@;
        let ghost all = snap.orders@;
        let mut i: usize = 0;
        while i < snap.orders.len()
            invariant
                book.wf(),
                all == snap.orders@,
                start == BookModel::empty(snap.cfg),
                book.cfg == snap.cfg,
                i <= all.len(),
                relinked(start, all.take(i as int)) == Ok::<_, Seq<char>>(book@),
            decreases all.len() - i,
        {
            let o = snap.orders[i];
            proof {
                assert(all.take(i + 1).drop_last() =~= all.take(i as int));
                assert(all.take(i + 1) + all.skip(i + 1) =~= all);
                book.lemma_index(o.order_id);
                if relinked(start, all.take(i + 1)) is Err {
                    lemma_relinked_err(start, all.take(i + 1), all.skip(i + 1));
                }
            }
            let level_idx = match snap.cfg.price_to_idx(Price(o.price)) {
                Some(l) => l,
                None => return Err("snapshot order price off the grid"),
            };
            if o.remaining == 0 {
                return Err("snapshot contains a zero-qty order");
            }
            if book.index.contains(o.order_id) {
                return Err("snapshot contains a duplicate order id");
            }
            if book.arena.is_full() {
                return Err("snapshot exceeds book capacity");
            }
            book.rest(
                OrderId(o.order_id),
                TraderId(o.trader),
                o.side,
                Price(o.price),
                level_idx,
                o.remaining,
                o.original_qty,
                o.stp,
            );
            i += 1;
        }
        proof {
            assert(all.take(i as int) =~= all);
            law_restore_sorts(snap.cfg, all);
        }
        Ok(book)
    }
}

/// The part of a book that comes first in canonical order: everything before
/// level `n` of side `s`.
spec fn cut(m: BookModel, s: Side, n: int) -> BookModel {
    let none = Seq::<SnapOrder>::empty();
    BookModel {
        cfg: m.cfg,
        bids: Seq::new(
            m.bids.len(),
            |i: int|
                if s == Side::Ask || i < n {
                    m.bids[i]
                } else {
                    none
                },
        ),
        asks: Seq::new(
            m.asks.len(),
            |i: int|
                if s == Side::Ask && i < n {
                    m.asks[i]
                } else {
                    none
                },
        ),
    }
}

/// Every queue of `a` is the start of the same queue of `b`.
spec fn part_of(a: BookModel, b: BookModel) -> bool {
    &&& a.cfg == b.cfg
    &&& a.bids.len() == b.bids.len()
    &&& a.asks.len() == b.asks.len()
    &&& forall|s: Side, i: int|
        #![trigger a.side(s)[i]]
        0 <= i < b.side(s).len() ==> a.side(s)[i].len() <= b.side(s)[i].len() && a.side(s)[i]
            == b.side(s)[i].take(a.side(s)[i].len() as int)
}

/// The next order of a queue can always be put back.
proof fn lemma_next_fits(a: BookModel, m: BookModel, s: Side, i: int)
    requires
        m.wf(),
        part_of(a, m),
        0 <= i < m.side(s).len(),
        a.side(s)[i].len() < m.side(s)[i].len(),
    ensures
        ({
            let o = m.side(s)[i][a.side(s)[i].len() as int];
            let l = a.side(s);
            &&& restore_fault(a, o) is None
            &&& a.rested(o) == a.with_side(s, l.update(i, l[i].push(o)))
            &&& part_of(a.rested(o), m)
        }),
{
    let k = a.side(s)[i].len() as int;
    let o = m.side(s)[i][k];
    let l = a.side(s);
    assert(m.at(s, i, k) && m.order(s, i, k) == o);
    m.cfg.lemma_level_of(Price(o.price));
    assert(m.cfg.on_level(Price(o.price), i));
    let new = a.with_side(s, l.update(i, l[i].push(o)));
    assert(a.rested(o) == new);
    if a.has(o.order_id) {
        let (s2, i2, k2) = choose|s2: Side, i2: int, k2: int|
            #![trigger a.order(s2, i2, k2)]
            a.at(s2, i2, k2) && a.order(s2, i2, k2).order_id == o.order_id;
        assert(a.side(s2)[i2] == m.side(s2)[i2].take(a.side(s2)[i2].len() as int));
        assert(m.at(s2, i2, k2) && m.order(s2, i2, k2) == a.order(s2, i2, k2));
    }
    assert forall|s2: Side, j: int|
        #![trigger new.side(s2)[j]]
        0 <= j < m.side(s2).len() implies new.side(s2)[j].len() <= m.side(s2)[j].len()
        && new.side(s2)[j] == m.side(s2)[j].take(new.side(s2)[j].len() as int) by {
        assert(a.side(s2)[j] == m.side(s2)[j].take(a.side(s2)[j].len() as int));
        if s2 == s && j == i {
            assert(new.side(s2)[j] =~= m.side(s2)[j].take(k + 1));
        }
    }
    assert(part_of(new, m));
    assert forall|j: int| 0 <= j < new.bids.len() implies (#[trigger] new.bids[j]).len()
        <= m.bids[j].len() by {
        assert(new.side(Side::Bid)[j].len() <= m.side(Side::Bid)[j].len());
    }
    assert forall|j: int| 0 <= j < new.asks.len() implies (#[trigger] new.asks[j]).len()
        <= m.asks[j].len() by {
        assert(new.side(Side::Ask)[j].len() <= m.side(Side::Ask)[j].len());
    }
    lemma_total_part(new.bids, m.bids);
    lemma_total_part(new.asks, m.asks);
    lemma_total_update(l, i, l[i].push(o));
}

/// Putting back the first `j` orders of a queue.
proof fn lemma_relink_queue(m: BookModel, s: Side, n: int, j: int)
    requires
        m.wf(),
        0 <= n < m.side(s).len(),
        0 <= j <= m.side(s)[n].len(),
    ensures
        ({
            let a = cut(m, s, n);
            let b = a.with_side(s, a.side(s).update(n, m.side(s)[n].take(j)));
            &&& relinked(a, m.side(s)[n].take(j)) == Ok::<_, Seq<char>>(b)
            &&& part_of(b, m)
        }),
    decreases j,
{
    let a = cut(m, s, n);
    let q = m.side(s)[n];
    let b = a.with_side(s, a.side(s).update(n, q.take(j)));
    if j == 0 {
        assert(q.take(0) =~= Seq::empty());
        assert(a.side(s).update(n, q.take(0)) =~= a.side(s));
        assert(b =~= a);
        assert forall|s2: Side, i: int|
            #![trigger a.side(s2)[i]]
            0 <= i < m.side(s2).len() implies a.side(s2)[i].len() <= m.side(s2)[i].len()
            && a.side(s2)[i] == m.side(s2)[i].take(a.side(s2)[i].len() as int) by {
            assert(a.side(s2)[i] =~= m.side(s2)[i].take(a.side(s2)[i].len() as int));
        }
    } else {
        lemma_relink_queue(m, s, n, j - 1);
        let p = a.with_side(s, a.side(s).update(n, q.take(j - 1)));
        lemma_next_fits(p, m, s, n);
        assert(q.take(j).drop_last() =~= q.take(j - 1));
        assert(q.take(j - 1).push(q[j - 1]) =~= q.take(j));
        assert(p.side(s).update(n, q.take(j)) =~= a.side(s).update(n, q.take(j)));
        assert(p.rested(q[j - 1]) =~= b);
    }
}

/// Putting back the first `n` levels of a side.
proof fn lemma_relink_side(m: BookModel, s: Side, n: int)
    requires
        m.wf(),
        0 <= n <= m.side(s).len(),
    ensures
        relinked(cut(m, s, 0), listed(m.side(s).take(n))) == Ok::<_, Seq<char>>(cut(m, s, n)),
    decreases n,
{
    let l = m.side(s);
    if n > 0 {
        let k = n - 1;
        lemma_relink_side(m, s, k);
        lemma_relink_queue(m, s, k, l[k].len() as int);
        assert(l[k].take(l[k].len() as int) =~= l[k]);
        assert(l.take(n).drop_last() =~= l.take(k));
        lemma_relinked_concat(cut(m, s, 0), listed(l.take(k)), l[k]);
        let a = cut(m, s, k);
        let b = a.with_side(s, a.side(s).update(k, l[k]));
        assert(b.bids =~= cut(m, s, n).bids);
        assert(b.asks =~= cut(m, s, n).asks);
    } else {
        assert(listed(l.take(0)) =~= Seq::empty());
    }
}

/// A snapshot restores to the book it was taken of: every order, on its
/// level, in its place in the queue.
pub proof fn law_snapshot_round_trip(m: BookModel)
    requires
        m.wf(),
    ensures
        restored(m.cfg, all_orders(m)) == Ok::<_, Seq<char>>(m),
{
    let n = m.cfg.num_levels as int;
    lemma_relink_side(m, Side::Bid, n);
    lemma_relink_side(m, Side::Ask, n);
    assert(m.bids.take(n) =~= m.bids);
    assert(m.asks.take(n) =~= m.asks);
    assert(cut(m, Side::Bid, 0).bids =~= BookModel::empty(m.cfg).bids);
    assert(cut(m, Side::Bid, 0).asks =~= BookModel::empty(m.cfg).asks);
    assert(cut(m, Side::Bid, n).bids =~= cut(m, Side::Ask, 0).bids);
    assert(cut(m, Side::Bid, n).asks =~= cut(m, Side::Ask, 0).asks);
    assert(cut(m, Side::Ask, n).bids =~= m.bids);
    assert(cut(m, Side::Ask, n).asks =~= m.asks);
    lemma_relinked_concat(BookModel::empty(m.cfg), listed(m.bids), listed(m.asks));
}

/// A list names as many orders as rest on the ladder.
pub proof fn lemma_listed_len(l: Ladder)
    ensures
        listed(l).len() == order_total(l),
    decreases l.len(),
{
    if l.len() > 0 {
        lemma_listed_len(l.drop_last());
    }
}

/// The orders of one side.
pub open spec fn on_side(s: Side) -> spec_fn(SnapOrder) -> bool {
    |o: SnapOrder| o.side == s
}

/// A filter that keeps everything, or nothing.
proof fn lemma_filter_uniform(q: Seq<SnapOrder>, p: spec_fn(SnapOrder) -> bool, keep: bool)
    requires
        forall|k: int| 0 <= k < q.len() ==> p(#[trigger] q[k]) == keep,
    ensures
        q.filter(p) == (if keep {
            q
        } else {
            Seq::empty()
        }),
    decreases q.len(),
{
    reveal(Seq::filter);
    if q.len() > 0 {
        let d = q.drop_last();
        assert forall|k: int| 0 <= k < d.len() implies p(#[trigger] d[k]) == keep by {
            assert(d[k] == q[k]);
        }
        lemma_filter_uniform(d, p, keep);
        assert(p(q[q.len() - 1]) == keep);
        if keep {
            assert(d.push(q.last()) =~= q);
        }
    }
}

/// Where two filters agree on every order, they keep the same.
proof fn lemma_filter_same(
    q: Seq<SnapOrder>,
    a: spec_fn(SnapOrder) -> bool,
    b: spec_fn(SnapOrder) -> bool,
)
    requires
        forall|k: int| 0 <= k < q.len() ==> a(#[trigger] q[k]) == b(q[k]),
    ensures
        q.filter(a) == q.filter(b),
    decreases q.len(),
{
    reveal(Seq::filter);
    if q.len() > 0 {
        let d = q.drop_last();
        assert forall|k: int| 0 <= k < d.len() implies a(#[trigger] d[k]) == b(d[k]) by {
            assert(d[k] == q[k]);
        }
        lemma_filter_same(d, a, b);
        assert(a(q[q.len() - 1]) == b(q[q.len() - 1]));
    }
}

/// Every order on the list of a side of a valid book belongs to that side and
/// stands at the price of some level below the number of levels listed.
proof fn lemma_listed_members(m: BookModel, s: Side, n: int)
    requires
        m.wf(),
        0 <= n <= m.side(s).len(),
    ensures
        forall|a: int|
            0 <= a < listed(m.side(s).take(n)).len() ==> {
                let o = #[trigger] listed(m.side(s).take(n))[a];
                &&& o.side == s
                &&& m.cfg.level_of(Price(o.price)) is Some
                &&& o.price < m.cfg.price_at(n)
            },
        forall|a: int, b: int|
            0 <= a < b < listed(m.side(s).take(n)).len() ==> (#[trigger] listed(
                m.side(s).take(n),
            )[a]).price <= (#[trigger] listed(m.side(s).take(n))[b]).price,
    decreases n,
{
    let l = m.side(s);
    if n == 0 {
        assert(l.take(0).len() == 0);
    } else {
        lemma_listed_members(m, s, n - 1);
        let r = l.take(n);
        let before = listed(l.take(n - 1));
        let q = l[n - 1];
        assert(r.drop_last() =~= l.take(n - 1));
        assert(listed(r) == before + q);
        m.cfg.law_grid_monotone(n - 1, n);
        assert forall|k: int| 0 <= k < q.len() implies (#[trigger] q[k]).side == s
            && m.cfg.level_of(Price(q[k].price)) is Some && q[k].price == m.cfg.price_at(n - 1) by {
            assert(m.at(s, n - 1, k) && m.order(s, n - 1, k) == q[k]);
            m.cfg.lemma_level_of(Price(q[k].price));
            assert(m.cfg.on_level(Price(q[k].price), n - 1));
        }
        assert forall|a: int| 0 <= a < listed(r).len() implies ({
            let o = #[trigger] listed(r)[a];
            &&& o.side == s
            &&& m.cfg.level_of(Price(o.price)) is Some
            &&& o.price < m.cfg.price_at(n)
        }) by {
            if a < before.len() {
                assert(listed(r)[a] == before[a]);
            } else {
                assert(listed(r)[a] == q[a - before.len()]);
            }
        }
        assert forall|a: int, b: int| 0 <= a < b < listed(r).len() implies (#[trigger] listed(
            r,
        )[a]).price <= (#[trigger] listed(r)[b]).price by {
            if b < before.len() {
                assert(listed(r)[a] == before[a] && listed(r)[b] == before[b]);
            } else {
                assert(listed(r)[b] == q[b - before.len()]);
                if a < before.len() {
                    assert(listed(r)[a] == before[a]);
                } else {
                    assert(listed(r)[a] == q[a - before.len()]);
                }
            }
        }
    }
}

/// A snapshot lists the orders of each side, and as many as rest there.
pub proof fn lemma_listed_sides(m: BookModel, s: Side)
    requires
        m.wf(),
    ensures
        all_orders(m).filter(on_side(s)) == listed(m.side(s)),
        all_orders(m).filter(on_side(s)).len() == order_total(m.side(s)),
{
    let n = m.cfg.num_levels as int;
    lemma_listed_members(m, Side::Bid, n);
    lemma_listed_members(m, Side::Ask, n);
    assert(m.bids.take(n) =~= m.bids);
    assert(m.asks.take(n) =~= m.asks);
    lemma_filter_uniform(listed(m.bids), on_side(s), s == Side::Bid);
    lemma_filter_uniform(listed(m.asks), on_side(s), s == Side::Ask);
    Seq::filter_distributes_over_add(listed(m.bids), listed(m.asks), on_side(s));
    assert(all_orders(m).filter(on_side(s)) =~= listed(m.side(s)));
    lemma_listed_len(m.side(s));
}

/// The orders of one side at one price.
pub open spec fn same_spot(s: Side, price: i64) -> spec_fn(SnapOrder) -> bool {
    |o: SnapOrder| o.side == s && o.price == price
}

/// The orders of one side on one level.
spec fn on_level(cfg: BookConfig, s: Side, i: int) -> spec_fn(SnapOrder) -> bool {
    |o: SnapOrder| o.side == s && cfg.level_of(Price(o.price)) == Some(i as u32)
}

/// `a` may stand before `b` in canonical order: bids before asks, then by
/// rising price.
pub open spec fn canonical(a: SnapOrder, b: SnapOrder) -> bool {
    if a.side == b.side {
        a.price <= b.price
    } else {
        a.side == Side::Bid
    }
}

/// `sorted` is `orders` in canonical order, sorted stably: the same orders,
/// and those at one spot in the order that they had.
pub open spec fn stably_sorted(sorted: Seq<SnapOrder>, orders: Seq<SnapOrder>) -> bool {
    &&& sorted.to_multiset() == orders.to_multiset()
    &&& forall|a: int, b: int|
        0 <= a < b < sorted.len() ==> canonical(#[trigger] sorted[a], #[trigger] sorted[b])
    &&& forall|s: Side, price: i64| #[trigger]
        sorted.filter(same_spot(s, price)) == orders.filter(same_spot(s, price))
}

/// Every bid is below every ask.
pub open spec fn bids_below_asks(orders: Seq<SnapOrder>) -> bool {
    forall|i: int, j: int|
        0 <= i < orders.len() && 0 <= j < orders.len() && (#[trigger] orders[i]).side == Side::Bid
            && (#[trigger] orders[j]).side == Side::Ask ==> orders[i].price < orders[j].price
}

/// One more order on a ladder is one more on its list.
proof fn lemma_listed_push(l: Ladder, i: int, o: SnapOrder)
    requires
        0 <= i < l.len(),
    ensures
        listed(l.update(i, l[i].push(o))).to_multiset() == listed(l).to_multiset().insert(o),
    decreases l.len(),
{
    broadcast use vstd::seq_lib::group_to_multiset_ensures;

    let u = l.update(i, l[i].push(o));
    let d = l.drop_last();
    vstd::seq_lib::lemma_multiset_commutative(listed(d), l.last());
    vstd::seq_lib::lemma_multiset_commutative(listed(u.drop_last()), u.last());
    if i == l.len() - 1 {
        assert(u.drop_last() =~= d);
        assert(u.last() == l.last().push(o));
        assert(listed(u).to_multiset() =~= listed(l).to_multiset().insert(o));
    } else {
        lemma_listed_push(d, i, o);
        assert(u.drop_last() =~= d.update(i, d[i].push(o)));
        assert(listed(u).to_multiset() =~= listed(l).to_multiset().insert(o));
    }
}

/// A ladder without orders has an empty list.
proof fn lemma_listed_none(l: Ladder)
    requires
        forall|i: int| 0 <= i < l.len() ==> (#[trigger] l[i]).len() == 0,
    ensures
        listed(l) == Seq::<SnapOrder>::empty(),
    decreases l.len(),
{
    if l.len() > 0 {
        let d = l.drop_last();
        assert forall|i: int| 0 <= i < d.len() implies (#[trigger] d[i]).len() == 0 by {
            assert(d[i] == l[i]);
        }
        lemma_listed_none(d);
        assert(l[l.len() - 1].len() == 0);
        assert(listed(l) =~= Seq::empty());
    }
}

/// What a restored book holds: on every level the orders of that side and
/// price, in the order of the snapshot.
proof fn lemma_restored(cfg: BookConfig, orders: Seq<SnapOrder>)
    requires
        cfg.wf(),
        restored(cfg, orders) is Ok,
    ensures
        ({
            let m = restored(cfg, orders)->Ok_0;
            &&& m.wf()
            &&& m.cfg == cfg
            &&& forall|s: Side, i: int|
                0 <= i < cfg.num_levels ==> #[trigger] m.side(s)[i] == orders.filter(
                    on_level(cfg, s, i),
                )
            &&& forall|k: int|
                0 <= k < orders.len() ==> cfg.level_of(Price((#[trigger] orders[k]).price)) is Some
            &&& all_orders(m).to_multiset() == orders.to_multiset()
        }),
    decreases orders.len(),
{
    broadcast use vstd::seq_lib::group_to_multiset_ensures;

    reveal(Seq::filter);
    let m = restored(cfg, orders)->Ok_0;
    if orders.len() == 0 {
        law_empty_valid(cfg);
        lemma_listed_none(m.bids);
        lemma_listed_none(m.asks);
        assert(all_orders(m) =~= orders);
        assert forall|s: Side, i: int| 0 <= i < cfg.num_levels implies #[trigger] m.side(s)[i]
            == orders.filter(on_level(cfg, s, i)) by {
            assert(m.side(s)[i] =~= Seq::empty());
        }
    } else {
        let d = orders.drop_last();
        let o = orders.last();
        lemma_restored(cfg, d);
        let b = restored(cfg, d)->Ok_0;
        cfg.lemma_level_of(Price(o.price));
        let lvl = cfg.level_of(Price(o.price))->0 as int;
        lemma_rested_wf(b, o, lvl);
        assert forall|s: Side, i: int| 0 <= i < cfg.num_levels implies #[trigger] m.side(s)[i]
            == orders.filter(on_level(cfg, s, i)) by {
            assert(b.side(s)[i] == d.filter(on_level(cfg, s, i)));
        }
        assert forall|k: int| 0 <= k < orders.len() implies cfg.level_of(
            Price((#[trigger] orders[k]).price),
        ) is Some by {
            if k < d.len() {
                assert(d[k] == orders[k]);
            }
        }
        lemma_listed_push(b.side(o.side), lvl, o);
        vstd::seq_lib::lemma_multiset_commutative(listed(b.bids), listed(b.asks));
        vstd::seq_lib::lemma_multiset_commutative(listed(m.bids), listed(m.asks));
        assert(all_orders(m).to_multiset() =~= all_orders(b).to_multiset().insert(o));
        assert(d.push(o) =~= orders);
    }
}

/// What the list of a side holds at the price of level `i`: the queue there.
proof fn lemma_listed_spot(m: BookModel, s: Side, price: i64, i: int, n: int)
    requires
        m.wf(),
        0 <= n <= m.side(s).len(),
        m.cfg.on_level(Price(price), i),
    ensures
        listed(m.side(s).take(n)).filter(same_spot(s, price)) == (if i < n {
            m.side(s)[i]
        } else {
            Seq::empty()
        }),
    decreases n,
{
    let l = m.side(s);
    let p = same_spot(s, price);
    if n == 0 {
        assert(l.take(0).len() == 0);
        reveal(Seq::filter);
    } else {
        lemma_listed_spot(m, s, price, i, n - 1);
        let q = l[n - 1];
        assert(l.take(n).drop_last() =~= l.take(n - 1));
        m.cfg.law_grid_monotone(n - 1, i);
        m.cfg.law_grid_monotone(i, n - 1);
        assert forall|k: int| 0 <= k < q.len() implies p(#[trigger] q[k]) == (i == n - 1) by {
            assert(m.at(s, n - 1, k) && m.order(s, n - 1, k) == q[k]);
            assert(m.cfg.on_level(Price(q[k].price), n - 1));
        }
        lemma_filter_uniform(q, p, i == n - 1);
        Seq::filter_distributes_over_add(listed(l.take(n - 1)), q, p);
        assert(listed(l.take(n)) == listed(l.take(n - 1)) + q);
        if i == n - 1 {
            assert(Seq::<SnapOrder>::empty() + q =~= q);
        } else {
            assert(listed(l.take(n - 1)).filter(p) + Seq::<SnapOrder>::empty() =~= listed(
                l.take(n - 1),
            ).filter(p));
        }
    }
}

/// The orders at one spot of a restored book are those of the snapshot, in its
/// order.
proof fn lemma_restored_spot(cfg: BookConfig, orders: Seq<SnapOrder>, s: Side, price: i64)
    requires
        cfg.wf(),
        restored(cfg, orders) is Ok,
    ensures
        all_orders(restored(cfg, orders)->Ok_0).filter(same_spot(s, price)) == orders.filter(
            same_spot(s, price),
        ),
{
    let m = restored(cfg, orders)->Ok_0;
    let p = same_spot(s, price);
    let n = cfg.num_levels as int;
    lemma_restored(cfg, orders);
    lemma_listed_members(m, Side::Bid, n);
    lemma_listed_members(m, Side::Ask, n);
    assert(m.bids.take(n) =~= m.bids);
    assert(m.asks.take(n) =~= m.asks);
    Seq::filter_distributes_over_add(listed(m.bids), listed(m.asks), p);
    lemma_filter_uniform(listed(m.side(s.opposite())), p, false);
    cfg.lemma_level_of(Price(price));
    if cfg.level_of(Price(price)) is Some {
        let i = cfg.level_of(Price(price))->0 as int;
        lemma_listed_spot(m, s, price, i, n);
        assert(m.side(s).take(n) =~= m.side(s));
        assert(m.side(s)[i] == orders.filter(on_level(cfg, s, i)));
        assert forall|k: int| 0 <= k < orders.len() implies on_level(cfg, s, i)(
            #[trigger] orders[k],
        ) == p(orders[k]) by {
            cfg.lemma_level_of(Price(orders[k].price));
        }
        lemma_filter_same(orders, on_level(cfg, s, i), p);
    } else {
        lemma_filter_uniform(listed(m.side(s)), p, false);
        assert forall|k: int| 0 <= k < orders.len() implies p(#[trigger] orders[k]) == false by {
            assert(cfg.level_of(Price(orders[k].price)) is Some);
        }
        lemma_filter_uniform(orders, p, false);
    }
    assert(all_orders(m).filter(p) =~= listed(m.side(s)).filter(p));
}

/// Restoring matches nothing: the restored book lists the orders of the
/// snapshot, every field kept, sorted stably into canonical order. It is
/// uncrossed exactly where every bid of the snapshot is below every ask.
pub proof fn law_restore_sorts(cfg: BookConfig, orders: Seq<SnapOrder>)
    requires
        cfg.wf(),
        restored(cfg, orders) is Ok,
    ensures
        ({
            let m = restored(cfg, orders)->Ok_0;
            &&& m.wf()
            &&& m.cfg == cfg
            &&& stably_sorted(all_orders(m), orders)
            &&& m.uncrossed() <==> bids_below_asks(orders)
        }),
{
    let m = restored(cfg, orders)->Ok_0;
    let n = cfg.num_levels as int;
    let r = all_orders(m);
    lemma_restored(cfg, orders);
    lemma_listed_members(m, Side::Bid, n);
    lemma_listed_members(m, Side::Ask, n);
    assert(m.bids.take(n) =~= m.bids);
    assert(m.asks.take(n) =~= m.asks);
    let x = listed(m.bids);
    let y = listed(m.asks);
    assert forall|a: int, b: int| 0 <= a < b < r.len() implies canonical(
        #[trigger] r[a],
        #[trigger] r[b],
    ) by {
        if a < x.len() {
            assert(r[a] == x[a]);
        } else {
            assert(r[a] == y[a - x.len()]);
        }
        if b < x.len() {
            assert(r[b] == x[b]);
        } else {
            assert(r[b] == y[b - x.len()]);
        }
    }
    assert forall|s: Side, price: i64| #[trigger]
        r.filter(same_spot(s, price)) == orders.filter(same_spot(s, price)) by {
        lemma_restored_spot(cfg, orders, s, price);
    }
    lemma_crossed_in_snapshot(cfg, orders);
}

/// A restored book is crossed where its snapshot is.
proof fn lemma_crossed_in_snapshot(cfg: BookConfig, orders: Seq<SnapOrder>)
    requires
        cfg.wf(),
        restored(cfg, orders) is Ok,
    ensures
        restored(cfg, orders)->Ok_0.uncrossed() <==> bids_below_asks(orders),
{
    let m = restored(cfg, orders)->Ok_0;
    lemma_restored(cfg, orders);
    if m.uncrossed() {
        assert forall|i: int, j: int|
            0 <= i < orders.len() && 0 <= j < orders.len() && (#[trigger] orders[i]).side
                == Side::Bid && (#[trigger] orders[j]).side == Side::Ask implies orders[i].price
            < orders[j].price by {
            let a = lemma_on_shelf(cfg, orders, i);
            let b = lemma_on_shelf(cfg, orders, j);
            assert(m.side(Side::Bid)[a].len() > 0);
            assert(m.side(Side::Ask)[b].len() > 0);
            assert(m.bids[a].len() > 0 && m.asks[b].len() > 0);
            cfg.law_grid_monotone(a, b);
        }
    }
    if bids_below_asks(orders) {
        assert forall|a: int, b: int|
            0 <= a < m.bids.len() && 0 <= b < m.asks.len() && (#[trigger] m.bids[a]).len() > 0 && (
            #[trigger] m.asks[b]).len() > 0 implies a < b by {
            let i = lemma_from_shelf(cfg, orders, Side::Bid, a);
            let j = lemma_from_shelf(cfg, orders, Side::Ask, b);
            assert(orders[i].price < orders[j].price);
            cfg.law_grid_monotone(a, b);
        }
    }
}

/// An order of the snapshot stands on the level of its price.
proof fn lemma_on_shelf(cfg: BookConfig, orders: Seq<SnapOrder>, k: int) -> (i: int)
    requires
        cfg.wf(),
        restored(cfg, orders) is Ok,
        0 <= k < orders.len(),
    ensures
        0 <= i < cfg.num_levels,
        orders[k].price == cfg.price_at(i),
        restored(cfg, orders)->Ok_0.side(orders[k].side)[i].len() > 0,
{
    lemma_restored(cfg, orders);
    let o = orders[k];
    cfg.lemma_level_of(Price(o.price));
    let i = cfg.level_of(Price(o.price))->0 as int;
    let p = on_level(cfg, o.side, i);
    orders.lemma_filter_contains(p, k);
    assert(restored(cfg, orders)->Ok_0.side(o.side)[i] == orders.filter(p));
    i
}

/// Whatever stands on a level is from the snapshot.
proof fn lemma_from_shelf(cfg: BookConfig, orders: Seq<SnapOrder>, s: Side, i: int) -> (k: int)
    requires
        cfg.wf(),
        restored(cfg, orders) is Ok,
        0 <= i < cfg.num_levels,
        restored(cfg, orders)->Ok_0.side(s)[i].len() > 0,
    ensures
        0 <= k < orders.len(),
        orders[k].side == s,
        orders[k].price == cfg.price_at(i),
{
    let m = restored(cfg, orders)->Ok_0;
    lemma_restored(cfg, orders);
    let p = on_level(cfg, s, i);
    assert(m.side(s)[i] == orders.filter(p));
    orders.lemma_filter_pred(p, 0);
    lemma_filter_from(orders, p, 0);
    let o = orders.filter(p)[0];
    cfg.lemma_level_of(Price(o.price));
    orders.index_of(o)
}

/// What a filter keeps was there.
proof fn lemma_filter_from(q: Seq<SnapOrder>, p: spec_fn(SnapOrder) -> bool, j: int)
    requires
        0 <= j < q.filter(p).len(),
    ensures
        q.contains(q.filter(p)[j]),
    decreases q.len(),
{
    reveal(Seq::filter);
    if q.len() > 0 {
        let d = q.drop_last();
        if j < d.filter(p).len() {
            lemma_filter_from(d, p, j);
            let k = d.index_of(d.filter(p)[j]);
            assert(q[k] == q.filter(p)[j]);
        } else {
            assert(q[q.len() - 1] == q.filter(p)[j]);
        }
    }
}

/// What a snapshot must be to be restored: every order on the grid and wanting
/// something, no id twice, and no more orders than the book has room for.
pub open spec fn restorable(cfg: BookConfig, orders: Seq<SnapOrder>) -> bool {
    &&& forall|k: int|
        0 <= k < orders.len() ==> (#[trigger] orders[k]).remaining > 0 && exists|i: int|
            {
                &&& 0 <= i < cfg.num_levels
                &&& orders[k].price == #[trigger] (cfg.min_price + i * cfg.tick_size)
                &&& orders[k].price - cfg.min_price <= i64::MAX
            }
    &&& forall|a: int, b: int|
        0 <= a < b < orders.len() ==> (#[trigger] orders[a]).order_id != (
        #[trigger] orders[b]).order_id
    &&& orders.len() <= cfg.max_live_orders
}

/// An order of this id is listed.
spec fn lists(orders: Seq<SnapOrder>, id: u64) -> bool {
    exists|k: int| 0 <= k < orders.len() && (#[trigger] orders[k]).order_id == id
}

/// A restored book holds the ids of its snapshot, and as many orders.
proof fn lemma_restored_ids(cfg: BookConfig, orders: Seq<SnapOrder>)
    requires
        cfg.wf(),
        restored(cfg, orders) is Ok,
    ensures
        restored(cfg, orders)->Ok_0.wf(),
        restored(cfg, orders)->Ok_0.cfg == cfg,
        restored(cfg, orders)->Ok_0.live() == orders.len(),
        forall|id: u64| #[trigger]
            restored(cfg, orders)->Ok_0.has(id) <==> lists(orders, id),
    decreases orders.len(),
{
    let m = restored(cfg, orders)->Ok_0;
    if orders.len() == 0 {
        law_empty_valid(cfg);
        assert forall|id: u64| !(#[trigger] m.has(id)) by {
            if m.has(id) {
                let (s, i, k) = choose|s: Side, i: int, k: int|
                    #![trigger m.order(s, i, k)]
                    m.at(s, i, k) && m.order(s, i, k).order_id == id;
                assert(m.side(s)[i].len() == 0);
            }
        }
    } else {
        let d = orders.drop_last();
        let o = orders.last();
        lemma_restored_ids(cfg, d);
        let b = restored(cfg, d)->Ok_0;
        cfg.lemma_level_of(Price(o.price));
        lemma_rested_wf(b, o, cfg.level_of(Price(o.price))->0 as int);
        assert forall|id: u64| #[trigger] m.has(id) <==> lists(orders, id) by {
            assert(m.has(id) <==> id == o.order_id || b.has(id));
            if lists(d, id) {
                let k = choose|k: int| 0 <= k < d.len() && (#[trigger] d[k]).order_id == id;
                assert(orders[k].order_id == id);
            }
            if id == o.order_id {
                assert(orders[orders.len() - 1].order_id == id);
            }
            if lists(orders, id) && id != o.order_id {
                let k = choose|k: int|
                    0 <= k < orders.len() && (#[trigger] orders[k]).order_id == id;
                assert(d[k].order_id == id);
            }
        }
    }
}

/// When a snapshot is restored and when it is refused: it is restored exactly
/// where every order is on the grid and wants something, no id comes twice, and
/// the book has room for all of them.
#[verifier::spinoff_prover]
#[verifier::rlimit(40)]
pub proof fn law_restore_verdict(cfg: BookConfig, orders: Seq<SnapOrder>)
    requires
        cfg.wf(),
    ensures
        restored(cfg, orders) is Ok <==> restorable(cfg, orders),
    decreases orders.len(),
{
    if orders.len() > 0 {
        let d = orders.drop_last();
        let o = orders.last();
        let last = orders.len() - 1;
        law_restore_verdict(cfg, d);
        cfg.lemma_level_of(Price(o.price));
        if restorable(cfg, orders) {
            assert(restorable(cfg, d)) by {
                assert(forall|k: int| 0 <= k < d.len() ==> #[trigger] d[k] == orders[k]);
            }
            lemma_restored_ids(cfg, d);
            assert(orders[last].remaining > 0);
            let i = choose|i: int|
                {
                    &&& 0 <= i < cfg.num_levels
                    &&& orders[last].price == #[trigger] (cfg.min_price + i * cfg.tick_size)
                    &&& orders[last].price - cfg.min_price <= i64::MAX
                };
            assert(cfg.on_level(Price(o.price), i));
            assert(!lists(d, o.order_id)) by {
                if lists(d, o.order_id) {
                    let k = choose|k: int|
                        0 <= k < d.len() && (#[trigger] d[k]).order_id == o.order_id;
                    assert(orders[k].order_id == orders[last].order_id);
                }
            }
            assert(!restored(cfg, d)->Ok_0.has(o.order_id));
        }
        if restored(cfg, orders) is Ok {
            lemma_restored_ids(cfg, d);
            let lvl = cfg.level_of(Price(o.price))->0 as int;
            assert(o.price == cfg.min_price + lvl * cfg.tick_size);
            assert forall|k: int| 0 <= k < orders.len() implies (#[trigger] orders[k]).remaining > 0
                && exists|i: int|
                {
                    &&& 0 <= i < cfg.num_levels
                    &&& orders[k].price == #[trigger] (cfg.min_price + i * cfg.tick_size)
                    &&& orders[k].price - cfg.min_price <= i64::MAX
                } by {
                if k < last {
                    assert(d[k] == orders[k]);
                }
            }
            assert forall|a: int, b: int| 0 <= a < b < orders.len() implies (
            #[trigger] orders[a]).order_id != (#[trigger] orders[b]).order_id by {
                assert(d[a] == orders[a]);
                if b < last {
                    assert(d[b] == orders[b]);
                } else if orders[a].order_id == o.order_id {
                    assert(lists(d, o.order_id));
                    assert(restored(cfg, d)->Ok_0.has(o.order_id));
                }
            }
        }
    }
}

/// What is wrong with a snapshot is what is wrong with the first of its orders
/// that cannot be put back: off the grid, wanting nothing, of an id that was
/// there before, or one too many; in this order.
#[verifier::spinoff_prover]
#[verifier::rlimit(40)]
pub proof fn law_restore_names_the_fault(cfg: BookConfig, orders: Seq<SnapOrder>, more: Seq<SnapOrder>)
    requires
        cfg.wf(),
        orders.len() > 0,
        restorable(cfg, orders.drop_last()),
        !restorable(cfg, orders),
    ensures
        ({
            let o = orders.last();
            let on_grid = exists|i: int|
                {
                    &&& 0 <= i < cfg.num_levels
                    &&& o.price == #[trigger] (cfg.min_price + i * cfg.tick_size)
                    &&& o.price - cfg.min_price <= i64::MAX
                };
            let twice = exists|k: int|
                0 <= k < orders.len() - 1 && (#[trigger] orders[k]).order_id == o.order_id;
            restored(cfg, orders + more) == Err::<BookModel, Seq<char>>(
                if !on_grid {
                    "snapshot order price off the grid"@
                } else if o.remaining == 0 {
                    "snapshot contains a zero-qty order"@
                } else if twice {
                    "snapshot contains a duplicate order id"@
                } else {
                    "snapshot exceeds book capacity"@
                },
            )
        }),
{
    let d = orders.drop_last();
    let o = orders.last();
    law_restore_verdict(cfg, d);
    law_restore_verdict(cfg, orders);
    lemma_restored_ids(cfg, d);
    lemma_relinked_err(BookModel::empty(cfg), orders, more);
    cfg.lemma_level_of(Price(o.price));
    if cfg.level_of(Price(o.price)) is Some {
        let lvl = cfg.level_of(Price(o.price))->0 as int;
        assert(o.price == cfg.min_price + lvl * cfg.tick_size);
    }
    if exists|i: int|
        {
            &&& 0 <= i < cfg.num_levels
            &&& o.price == #[trigger] (cfg.min_price + i * cfg.tick_size)
            &&& o.price - cfg.min_price <= i64::MAX
        } {
        let i = choose|i: int|
            {
                &&& 0 <= i < cfg.num_levels
                &&& o.price == #[trigger] (cfg.min_price + i * cfg.tick_size)
                &&& o.price - cfg.min_price <= i64::MAX
            };
        assert(cfg.on_level(Price(o.price), i));
    }
    assert(restored(cfg, d)->Ok_0.has(o.order_id) <==> lists(d, o.order_id));
    if lists(d, o.order_id) {
        let k = choose|k: int| 0 <= k < d.len() && (#[trigger] d[k]).order_id == o.order_id;
        assert(orders[k].order_id == o.order_id);
    }
    if exists|k: int| 0 <= k < orders.len() - 1 && (#[trigger] orders[k]).order_id == o.order_id {
        let k = choose|k: int|
            0 <= k < orders.len() - 1 && (#[trigger] orders[k]).order_id == o.order_id;
        assert(d[k].order_id == o.order_id);
    }
}

} // verus!
