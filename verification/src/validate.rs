//! Invariant checker: I1-I9.
//!
//! (I2 conservation and I10 determinism are *history* properties, stated as
//! laws over whole runs. Everything checkable from a state is checked here.)
//!
//! This is a cold diagnostic path, called after every event in tests and
//! by the fuzzer, never from the hot path.

use crate::arena::{
    lemma_chain_unique, lemma_followable, lemma_list_is_walk, lemma_walk_is_list, link_ok, links,
    pred, succ, walk, Arena, OrderSlot, NIL,
};
use crate::book::OrderBook;
use crate::book_side::{bit_at, is_best, level_ok, queued, Level};
use crate::model::order_total;
use crate::snapshot::{all_orders, lemma_listed_sides, on_side};
use crate::types::{Price, Side};
use vstd::prelude::*;

verus! {

/// What a walk came to: the first fault, if there was one, and the slots that
/// were found linked.
#[verifier::ext_equal]
pub struct Walked {
    pub fault: Option<Seq<char>>,
    pub live: Seq<bool>,
}

/// What the walk over the levels of a side came to.
#[verifier::ext_equal]
pub struct SideWalked {
    pub fault: Option<Seq<char>>,
    pub live: Seq<bool>,
    /// The best level with orders.
    pub best: u32,
}

/// The better one of the best level seen so far and another.
pub open spec fn better_of(s: Side, best: u32, l: u32) -> u32 {
    if best == NIL || match s {
        Side::Bid => l > best,
        Side::Ask => l < best,
    } {
        l
    } else {
        best
    }
}

impl OrderBook {
    /// The walk over a FIFO, from the slot `cur` behind `prev` on, after
    /// `count` slots with `sum` lots: I5, I6, I7 (per order) and I9.
    pub open(crate) spec fn fifo_walk(
        &self,
        s: Side,
        l: u32,
        cur: u32,
        prev: u32,
        count: nat,
        sum: nat,
        live: Seq<bool>,
    ) -> Walked
        decreases self.side_of(s).levels()[l as int].order_count + 1 - count,
    {
        let lvl = self.side_of(s).levels()[l as int];
        let slot = self.arena.slots()[cur as int];
        if cur == NIL {
            if count != lvl.order_count as u64 {
                Walked { fault: Some("I6: FIFO length != order_count"@), live }
            } else if prev != lvl.tail {
                Walked { fault: Some("I6: FIFO walk does not end at tail"@), live }
            } else if sum != lvl.total_qty {
                Walked { fault: Some("I5: level total_qty != sum of remaining"@), live }
            } else {
                Walked { fault: None, live }
            }
        } else if count > lvl.order_count {
            Walked { fault: Some("I6: FIFO walk exceeds order_count (cycle?)"@), live }
        } else if slot.prev != prev {
            Walked { fault: Some("I6: prev link does not mirror next link"@), live }
        } else if slot.level_idx != l {
            Walked { fault: Some("I6: slot's level_idx disagrees with its level"@), live }
        } else if Side::from_u8(slot.side) != s {
            Walked { fault: Some("I6: slot's side disagrees with its book side"@), live }
        } else if slot.remaining == 0 {
            Walked { fault: Some("I9: zero-qty order linked into a level"@), live }
        } else if !(self.index@.contains_key(slot.order_id) && self.index@[slot.order_id] == cur) {
            Walked { fault: Some("I7: live order missing/mismapped in the index"@), live }
        } else if live[cur as int] {
            Walked { fault: Some("I6: slot linked twice"@), live }
        } else {
            self.fifo_walk(
                s,
                l,
                slot.next,
                cur,
                count + 1,
                sum + slot.remaining as nat,
                live.update(cur as int, true),
            )
        }
    }

    /// The check of one level: I3, then an empty level is empty, an occupied
    /// one is walked.
    pub open(crate) spec fn level_walk(&self, s: Side, l: u32, live: Seq<bool>) -> Walked {
        let side = self.side_of(s);
        let lvl = side.levels()[l as int];
        if bit_at(side.words(), l as int) != (lvl.order_count > 0) {
            Walked { fault: Some("I3: bitmap bit disagrees with order_count"@), live }
        } else if lvl.order_count == 0 {
            if lvl.head != NIL || lvl.tail != NIL {
                Walked { fault: Some("I6: empty level with linked head/tail"@), live }
            } else if lvl.total_qty != 0 {
                Walked { fault: Some("I5: empty level with non-zero total_qty"@), live }
            } else {
                Walked { fault: None, live }
            }
        } else {
            self.fifo_walk(s, l, lvl.head, NIL, 0, 0, live)
        }
    }

    /// The check of the levels from `l` on, lowest price first.
    pub open(crate) spec fn levels_walk(
        &self,
        s: Side,
        l: int,
        live: Seq<bool>,
        best: u32,
    ) -> SideWalked
        decreases self.side_of(s).levels().len() - l,
    {
        let side = self.side_of(s);
        if l < 0 || l >= side.levels().len() {
            SideWalked { fault: None, live, best }
        } else {
            let w = self.level_walk(s, l as u32, live);
            let next = if side.levels()[l].order_count == 0 {
                best
            } else {
                better_of(s, best, l as u32)
            };
            if w.fault is Some {
                SideWalked { fault: w.fault, live: w.live, best: next }
            } else {
                self.levels_walk(s, l + 1, w.live, next)
            }
        }
    }

    /// No slot is found linked yet.
    pub open(crate) spec fn no_flags(&self) -> Seq<bool> {
        Seq::new(self.arena.slots().len(), |i: int| false)
    }

    /// The check of a side: its levels, then I4.
    pub open(crate) spec fn side_walk(&self, s: Side) -> Walked {
        let w = self.levels_walk(s, 0, self.no_flags(), NIL);
        if w.fault is None && self.side_of(s).best_idx() != w.best {
            Walked { fault: Some("I4: cached best != true best"@), live: w.live }
        } else {
            Walked { fault: w.fault, live: w.live }
        }
    }

    /// The check of the free-list from number `k` on.
    pub open(crate) spec fn free_fault(
        &self,
        free: Seq<u32>,
        k: int,
        live: Seq<bool>,
    ) -> Option<Seq<char>>
        decreases free.len() - k,
    {
        if k < 0 || k >= free.len() {
            None
        } else if live[free[k] as int] {
            Some("I8: slot is both live and on the free-list"@)
        } else if free.take(k).contains(free[k]) {
            Some("I8: free-list contains a cycle/duplicate"@)
        } else {
            self.free_fault(free, k + 1, live)
        }
    }

    /// The first violation that the book shows, if it shows one.
    pub open(crate) spec fn first_fault(&self) -> Option<Seq<char>> {
        let b = self.side_walk(Side::Bid);
        let a = self.side_walk(Side::Ask);
        let live = either(b.live, a.live);
        let free = walk(
            self.arena.slots(),
            self.arena.free_head(),
            self.arena.slots().len() + 1,
        );
        if b.fault is Some {
            b.fault
        } else if a.fault is Some {
            a.fault
        } else if exists|i: int|
            #![trigger b.live[i]]
            0 <= i < b.live.len() && b.live[i] && a.live[i] {
            Some("I8: slot linked into both sides"@)
        } else if self.bids.best_idx() != NIL && self.asks.best_idx() != NIL
            && self.bids.best_idx() >= self.asks.best_idx() {
            Some("I1: book is crossed"@)
        } else if count_true(live) != self.arena.live_len() {
            Some("I7/I8: linked slot count != arena live count"@)
        } else if self.index@.len() != self.arena.live_len() {
            Some("I7: index size != arena live count"@)
        } else if free.len() + self.arena.live_len() != self.arena.slots().len() {
            Some("I8: free list length + live count != capacity"@)
        } else {
            self.free_fault(free, 0, live)
        }
    }

    /// The book can be looked at: its parts have the sizes they were made
    /// with, and every link can be followed.
    pub open(crate) spec fn checkable(&self) -> bool {
        &&& self.cfg.wf()
        &&& self.arena.walkable()
        &&& self.arena.slots().len() == self.cfg.max_live_orders
        &&& self.arena.live_len() <= u32::MAX
        &&& self.side_checkable(Side::Bid)
        &&& self.side_checkable(Side::Ask)
        &&& self.index.wf()
        &&& self.index.capacity() >= 2 * self.cfg.max_live_orders
    }

    /// One side can be looked at.
    pub open(crate) spec fn side_checkable(&self, s: Side) -> bool {
        let side = self.side_of(s);
        &&& side.which() == s
        &&& side.shape()
        &&& side.levels().len() == self.cfg.num_levels
        &&& forall|l: int|
            0 <= l < side.levels().len() ==> link_ok(
                self.arena.slots(),
                (#[trigger] side.levels()[l]).head,
            )
    }
}

/// The slots that either walk found.
pub open spec fn either(a: Seq<bool>, b: Seq<bool>) -> Seq<bool> {
    Seq::new(a.len(), |i: int| a[i] || b[i])
}

/// How many flags are set.
pub open spec fn count_true(f: Seq<bool>) -> nat
    decreases f.len(),
{
    if f.len() == 0 {
        0
    } else {
        count_true(f.drop_last()) + (if f.last() {
            1nat
        } else {
            0
        })
    }
}

impl OrderBook {
    /// Check every state invariant. Returns the first violation.
    pub fn validate(&self) -> (r: Result<(), &'static str>)
        requires
            self.checkable(),
        ensures
            match r {
                Ok(()) => self.first_fault() is None,
                Err(e) => self.first_fault() == Some(e@),
            },
            r is Ok <==> self.sound(),
            self.wf() ==> (r is Ok <==> self@.uncrossed()),
    {
        proof {
            self.law_validate_is_right();
            self.lemma_wf_sound();
        }
        let ghost b = self.side_walk(Side::Bid);
        let ghost a = self.side_walk(Side::Ask);
        let bids = self.validate_side(Side::Bid)?;
        let asks = self.validate_side(Side::Ask)?;
        let cap = self.arena.capacity() as usize;
        let mut live: Vec<bool> = Vec::with_capacity(cap);
        let mut linked: u32 = 0;
        let mut i: usize = 0;
        proof {
            assert(count_true(either(b.live, a.live).take(0)) == 0);
        }
        while i < cap
            invariant
                self.checkable(),
                cap == self.arena.slots().len(),
                b == self.side_walk(Side::Bid),
                a == self.side_walk(Side::Ask),
                b.fault is None,
                a.fault is None,
                bids@ == b.live,
                asks@ == a.live,
                bids@.len() == cap,
                asks@.len() == cap,
                i <= cap,
                live@ == either(b.live, a.live).take(i as int),
                linked == count_true(live@),
                linked <= i,
                forall|j: int|
                    #![trigger b.live[j]]
                    0 <= j < i ==> !(b.live[j] && a.live[j]),
            decreases cap - i,
        {
            if bids[i] && asks[i] {
                proof {
                    assert(b.live[i as int] && a.live[i as int]);
                    self.law_validate_is_right();
                    self.lemma_wf_sound();
                }
                return Err("I8: slot linked into both sides");
            }
            let ghost before = live@;
            live.push(bids[i] || asks[i]);
            if bids[i] || asks[i] {
                linked += 1;
            }
            i += 1;
            proof {
                assert(live@ =~= either(b.live, a.live).take(i as int));
                assert(live@.drop_last() =~= before);
            }
        }
        let ghost both = either(b.live, a.live);
        proof {
            assert(both.take(i as int) =~= both);
        }

        // I1: the book never crosses.
        let bb = self.bids.best();
        let ba = self.asks.best();
        if bb != NIL && ba != NIL && bb >= ba {
            return Err("I1: book is crossed");
        }

        // I7 (count side): every index entry points at a live slot; counts
        // agree. (Per-order direction was checked during the side walks.)
        if linked != self.arena.len() {
            return Err("I7/I8: linked slot count != arena live count");
        }
        if self.index.len() != self.arena.len() {
            return Err("I7: index size != arena live count");
        }

        // I8: free-list disjointness and completeness.
        proof {
            lemma_followable(
                self.arena.slots(),
                self.arena.free_head(),
                self.arena.slots().len() + 1,
            );
        }
        let free = self.arena.free_list_indices();
        proof {
            lemma_walk_is_list(
                self.arena.slots(),
                self.arena.free_head(),
                self.arena.slots().len() + 1,
            );
        }
        if free.len() as u64 + self.arena.len() as u64 != cap as u64 {
            return Err("I8: free list length + live count != capacity");
        }
        self.validate_free(&free, &live)
    }

    /// The free-list holds no live slot and no slot twice.
    fn validate_free(&self, free: &Vec<u32>, live: &Vec<bool>) -> (r: Result<(), &'static str>)
        requires
            live@.len() <= u32::MAX,
            forall|k: int| 0 <= k < free@.len() ==> #[trigger] free@[k] < live@.len(),
        ensures
            match r {
                Ok(()) => self.free_fault(free@, 0, live@) is None,
                Err(e) => self.free_fault(free@, 0, live@) == Some(e@),
            },
    {
        let n = live.len();
        let mut seen: Vec<bool> = no_flags(n);
        let mut k: usize = 0;
        while k < free.len()
            invariant
                k <= free@.len(),
                n == live@.len() == seen@.len(),
                n <= u32::MAX,
                forall|j: int| 0 <= j < free@.len() ==> #[trigger] free@[j] < n,
                forall|i: int|
                    0 <= i < n ==> (#[trigger] seen@[i] <==> free@.take(k as int).contains(
                        i as u32,
                    )),
                self.free_fault(free@, 0, live@) == self.free_fault(free@, k as int, live@),
            decreases free@.len() - k,
        {
            let f = free[k];
            if live[f as usize] {
                return Err("I8: slot is both live and on the free-list");
            }
            if seen[f as usize] {
                return Err("I8: free-list contains a cycle/duplicate");
            }
            let ghost before = free@.take(k as int);
            seen.set(f as usize, true);
            k += 1;
            proof {
                let now = free@.take(k as int);
                assert(now =~= before.push(f));
                assert forall|i: int| 0 <= i < n implies (#[trigger] seen@[i] <==> now.contains(
                    i as u32,
                )) by {
                    if before.contains(i as u32) {
                        let j = before.index_of(i as u32);
                        assert(now[j] == i as u32);
                    }
                    if i == f {
                        assert(now[k - 1] == i as u32);
                    }
                    if now.contains(i as u32) && i != f {
                        let j = now.index_of(i as u32);
                        assert(before[j] == i as u32);
                    }
                }
            }
        }
        Ok(())
    }

    /// Walk one side; returns which arena slots are linked into it. On a
    /// consistent book that is as many as the side has orders.
    pub fn validate_side(&self, side: Side) -> (r: Result<Vec<bool>, &'static str>)
        requires
            self.wf() || self.checkable(),
        ensures
            self.wf() ==> {
                &&& r is Ok
                &&& r->Ok_0@.len() == self@.cfg.max_live_orders
                &&& count_true(r->Ok_0@) == all_orders(self@).filter(on_side(side)).len()
            },
            match r {
                Ok(live) => {
                    &&& self.side_walk(side).fault is None
                    &&& live@ == self.side_walk(side).live
                    &&& live@.len() == self.no_flags().len()
                },
                Err(e) => self.side_walk(side).fault == Some(e@),
            },
    {
        proof {
            if self.wf() {
                self.lemma_wf_checkable();
                self.law_sides_share_no_slot();
            }
        }
        let bs = self.side(side);
        let n = bs.num_levels();
        let mut live: Vec<bool> = no_flags(self.arena.capacity() as usize);
        let mut best_seen: u32 = NIL;
        let mut l: u32 = 0;
        proof {
            assert(live@ =~= self.no_flags());
        }
        while l < n
            invariant
                self.checkable(),
                self.wf() ==> self.side_walk(side).fault is None,
                *bs == self.side_of(side),
                n == bs.levels().len(),
                l <= n,
                live@.len() == self.arena.slots().len(),
                self.levels_walk(side, 0, self.no_flags(), NIL) == self.levels_walk(
                    side,
                    l as int,
                    live@,
                    best_seen,
                ),
            decreases n - l,
        {
            let occupied = bs.level(l).order_count > 0;
            self.validate_level(side, l, &mut live)?;
            if occupied {
                let better = best_seen == NIL || match side {
                    Side::Bid => l > best_seen,
                    Side::Ask => l < best_seen,
                };
                if better {
                    best_seen = l;
                }
            }
            l += 1;
        }

        // I4: the cached best is the true best.
        if bs.best() != best_seen {
            return Err("I4: cached best != true best");
        }
        let scanned = bs.scan_true_best();
        proof {
            // The bitmap agrees with the levels by now, so this never fires.
            self.lemma_levels_found(side, 0, self.no_flags(), NIL);
            assert forall|i: int| 0 <= i < bs.levels().len() implies (#[trigger] bit_at(
                bs.words(),
                i,
            ) <==> bs.levels()[i].order_count > 0) by {
                assert(bs.level_linked(self.arena.slots(), i));
            }
            assert(is_best(side, bs.levels(), scanned)) by {
                if scanned == NIL {
                    assert forall|i: int| 0 <= i < bs.levels().len() implies (
                    #[trigger] bs.levels()[i]).order_count == 0 by {
                        assert(!bit_at(bs.words(), i));
                    }
                } else {
                    assert forall|i: int|
                        0 <= i < bs.levels().len() && (#[trigger] bs.levels()[i]).order_count
                            > 0 implies match side {
                        Side::Bid => i <= scanned,
                        Side::Ask => i >= scanned,
                    } by {
                        assert(bit_at(bs.words(), i));
                    }
                }
            }
            lemma_best_same(side, bs.levels(), best_seen, scanned);
        }
        if bs.best() != scanned {
            return Err("I4: cached best != bitmap scan best");
        }
        Ok(live)
    }

    /// Check one level and mark its slots as linked.
    fn validate_level(&self, side: Side, l: u32, live: &mut Vec<bool>) -> (r: Result<
        (),
        &'static str,
    >)
        requires
            self.checkable(),
            l < self.cfg.num_levels,
            old(live)@.len() == self.arena.slots().len(),
        ensures
            final(live)@.len() == old(live)@.len(),
            match r {
                Ok(()) => {
                    &&& self.level_walk(side, l, old(live)@).fault is None
                    &&& final(live)@ == self.level_walk(side, l, old(live)@).live
                },
                Err(e) => self.level_walk(side, l, old(live)@).fault == Some(e@),
            },
    {
        let bs = self.side(side);
        let lvl = *bs.level(l);

        // I3: bitmap consistency.
        if bs.bit(l) != (lvl.order_count > 0) {
            return Err("I3: bitmap bit disagrees with order_count");
        }
        if lvl.order_count == 0 {
            if lvl.head != NIL || lvl.tail != NIL {
                return Err("I6: empty level with linked head/tail");
            }
            if lvl.total_qty != 0 {
                return Err("I5: empty level with non-zero total_qty");
            }
            return Ok(());
        }

        // I5 + I6 + I9: walk the FIFO.
        let ghost start = live@;
        let mut sum: u128 = 0;
        let mut count: u64 = 0;
        let mut prev = NIL;
        let mut cur = lvl.head;
        while cur != NIL
            invariant
                self.checkable(),
                l < self.cfg.num_levels,
                lvl == self.side_of(side).levels()[l as int],
                lvl.order_count > 0,
                link_ok(self.arena.slots(), cur),
                live@.len() == self.arena.slots().len() == start.len(),
                start == old(live)@,
                count <= lvl.order_count + 1,
                sum <= count * 0xffff_ffff_ffff_ffff,
                self.fifo_walk(side, l, lvl.head, NIL, 0, 0, start) == self.fifo_walk(
                    side,
                    l,
                    cur,
                    prev,
                    count as nat,
                    sum as nat,
                    live@,
                ),
                self.level_walk(side, l, start) == self.fifo_walk(
                    side,
                    l,
                    lvl.head,
                    NIL,
                    0,
                    0,
                    start,
                ),
            decreases lvl.order_count + 1 - count,
        {
            if count > lvl.order_count as u64 {
                return Err("I6: FIFO walk exceeds order_count (cycle?)");
            }
            let s = self.arena.slot(cur);
            if s.prev != prev {
                return Err("I6: prev link does not mirror next link");
            }
            if s.level_idx != l {
                return Err("I6: slot's level_idx disagrees with its level");
            }
            if Side::from_u8(s.side) != side {
                return Err("I6: slot's side disagrees with its book side");
            }
            if s.remaining == 0 {
                return Err("I9: zero-qty order linked into a level");
            }
            // I7 (per order): the index maps this order back to this slot.
            let mapped = match self.index.get(s.order_id) {
                Some(i) => i == cur,
                None => false,
            };
            if !mapped {
                return Err("I7: live order missing/mismapped in the index");
            }
            if live[cur as usize] {
                return Err("I6: slot linked twice");
            }
            live.set(cur as usize, true);
            sum += s.remaining as u128;
            count += 1;
            prev = cur;
            cur = s.next;
        }
        if count != lvl.order_count as u64 {
            return Err("I6: FIFO length != order_count");
        }
        if prev != lvl.tail {
            return Err("I6: FIFO walk does not end at tail");
        }
        if sum != lvl.total_qty {
            return Err("I5: level total_qty != sum of remaining");
        }
        Ok(())
    }
}

/// `n` flags, none of them set.
fn no_flags(n: usize) -> (v: Vec<bool>)
    ensures
        v@.len() == n,
        forall|i: int| 0 <= i < n ==> !#[trigger] v@[i],
{
    let mut v: Vec<bool> = Vec::with_capacity(n);
    let mut i: usize = 0;
    while i < n
        invariant
            i <= n,
            v@.len() == i,
            forall|j: int| 0 <= j < i ==> !#[trigger] v@[j],
        decreases n - i,
    {
        v.push(false);
        i += 1;
    }
    v
}

/// Setting a flag that was not set adds one.
proof fn lemma_count_set(f: Seq<bool>, i: int)
    requires
        0 <= i < f.len(),
        !f[i],
    ensures
        count_true(f.update(i, true)) == count_true(f) + 1,
    decreases f.len(),
{
    let u = f.update(i, true);
    if i == f.len() - 1 {
        assert(u.drop_last() =~= f.drop_last());
    } else {
        lemma_count_set(f.drop_last(), i);
        assert(u.drop_last() =~= f.drop_last().update(i, true));
    }
}

/// No flag set, none counted.
proof fn lemma_count_none(f: Seq<bool>)
    requires
        forall|i: int| 0 <= i < f.len() ==> !#[trigger] f[i],
    ensures
        count_true(f) == 0,
    decreases f.len(),
{
    if f.len() > 0 {
        let d = f.drop_last();
        assert forall|i: int| 0 <= i < d.len() implies !#[trigger] d[i] by {
            assert(d[i] == f[i]);
        }
        lemma_count_none(d);
        assert(!f[f.len() - 1]);
    }
}

/// As many flags as there are: all of them.
proof fn lemma_count_all(f: Seq<bool>)
    ensures
        count_true(f) <= f.len(),
        count_true(f) == f.len() ==> forall|i: int| 0 <= i < f.len() ==> #[trigger] f[i],
    decreases f.len(),
{
    if f.len() > 0 {
        let d = f.drop_last();
        lemma_count_all(d);
        if count_true(f) == f.len() {
            assert forall|i: int| 0 <= i < f.len() implies #[trigger] f[i] by {
                if i < d.len() {
                    assert(d[i]);
                    assert(d[i] == f[i]);
                }
            }
        }
    }
}

/// Flags of two walks that met nowhere.
proof fn lemma_count_either(a: Seq<bool>, b: Seq<bool>)
    requires
        a.len() == b.len(),
        forall|i: int| 0 <= i < a.len() ==> !(#[trigger] a[i] && b[i]),
    ensures
        count_true(either(a, b)) == count_true(a) + count_true(b),
    decreases a.len(),
{
    if a.len() > 0 {
        let x = a.drop_last();
        let y = b.drop_last();
        assert forall|i: int| 0 <= i < x.len() implies !(#[trigger] x[i] && y[i]) by {
            assert(x[i] == a[i] && y[i] == b[i]);
        }
        lemma_count_either(x, y);
        assert(either(a, b).drop_last() =~= either(x, y));
        let n = a.len() - 1;
        assert(!(a[n] && b[n]));
    }
}

/// `b` is the best of the levels below `hi` that have orders.
spec fn best_below(s: Side, levels: Seq<Level>, hi: int, b: u32) -> bool {
    if b == NIL {
        forall|i: int| 0 <= i < hi ==> (#[trigger] levels[i]).order_count == 0
    } else {
        &&& b < hi
        &&& levels[b as int].order_count > 0
        &&& forall|i: int|
            0 <= i < hi && (#[trigger] levels[i]).order_count > 0 ==> match s {
                Side::Bid => i <= b,
                Side::Ask => i >= b,
            }
    }
}

/// The orders that the levels from `l` on count.
spec fn counted_from(levels: Seq<Level>, l: int) -> nat
    decreases levels.len() - l,
{
    if l < 0 || l >= levels.len() {
        0
    } else {
        levels[l].order_count as nat + counted_from(levels, l + 1)
    }
}

impl OrderBook {
    /// A linked slot holds a live, indexed order of side `s`.
    pub open(crate) spec fn slot_ok(&self, s: Side, i: u32) -> bool {
        let slot = self.arena.slots()[i as int];
        &&& Side::from_u8(slot.side) == s
        &&& slot.remaining > 0
        &&& self.index@.contains_key(slot.order_id)
        &&& self.index@[slot.order_id] == i
    }

    /// Every invariant that a state can show holds: the bitmap, the cached
    /// best, the FIFOs and their accounts, the index, the free-list, and the
    /// book is not crossed.
    pub open(crate) spec fn sound(&self) -> bool {
        &&& self.parts_ok()
        &&& forall|s: Side, l: int, k: int|
            #![trigger self.chains(s)[l][k]]
            0 <= l < self.cfg.num_levels && 0 <= k < self.chains(s)[l].len() ==> self.slot_ok(
                s,
                self.chains(s)[l][k],
            ) && self.arena.live(self.chains(s)[l][k])
        &&& self.all_linked()
        &&& self.index_ok()
        &&& order_total(self@.bids) + order_total(self@.asks) == self.arena.live_len()
        &&& self.bids.best_idx() == NIL || self.asks.best_idx() == NIL || self.bids.best_idx()
            < self.asks.best_idx()
    }

    /// Every linked order rests at the level of its price.
    pub open(crate) spec fn priced(&self) -> bool {
        forall|s: Side, l: int, k: int|
            #![trigger self.chains(s)[l][k]]
            0 <= l < self.cfg.num_levels && 0 <= k < self.chains(s)[l].len() ==> self.cfg.on_level(
                Price(self.arena.slots()[self.chains(s)[l][k] as int].price),
                l,
            )
    }

    /// A FIFO walk without a fault walked a FIFO.
    proof fn lemma_fifo_found(
        &self,
        s: Side,
        l: u32,
        cur: u32,
        prev: u32,
        count: nat,
        sum: nat,
        live: Seq<bool>,
    ) -> (c: Seq<u32>)
        requires
            self.checkable(),
            l < self.cfg.num_levels,
            link_ok(self.arena.slots(), cur),
            live.len() == self.arena.slots().len(),
            self.fifo_walk(s, l, cur, prev, count, sum, live).fault is None,
        ensures
            ({
                let slots = self.arena.slots();
                let lvl = self.side_of(s).levels()[l as int];
                let w = self.fifo_walk(s, l, cur, prev, count, sum, live);
                &&& links(slots, cur, c)
                &&& c.no_duplicates()
                &&& forall|i: int|
                    0 <= i < c.len() ==> (#[trigger] slots[c[i] as int]).prev == (if i == 0 {
                        prev
                    } else {
                        c[i - 1]
                    }) && slots[c[i] as int].level_idx == l
                &&& forall|i: int|
                    0 <= i < c.len() ==> self.slot_ok(s, #[trigger] c[i]) && !live[c[i] as int]
                &&& count + c.len() == lvl.order_count
                &&& lvl.tail == (if c.len() > 0 {
                    c.last()
                } else {
                    prev
                })
                &&& sum + queued(slots, c) == lvl.total_qty
                &&& w.live.len() == live.len()
                &&& forall|i: int|
                    0 <= i < live.len() ==> (#[trigger] w.live[i] <==> live[i] || c.contains(
                        i as u32,
                    ))
                &&& count_true(w.live) == count_true(live) + c.len()
            }),
        decreases self.side_of(s).levels()[l as int].order_count + 1 - count,
    {
        let slots = self.arena.slots();
        if cur == NIL {
            Seq::empty()
        } else {
            let slot = slots[cur as int];
            let marked = live.update(cur as int, true);
            let t = self.lemma_fifo_found(
                s,
                l,
                slot.next,
                cur,
                count + 1,
                sum + slot.remaining as nat,
                marked,
            );
            let c = seq![cur] + t;
            let w = self.fifo_walk(s, l, cur, prev, count, sum, live);
            lemma_count_set(live, cur as int);
            assert forall|i: int| 0 <= i < c.len() implies #[trigger] c[i] < slots.len() && !live[c[i] as int]
                && self.slot_ok(s, c[i]) by {
                if i > 0 {
                    assert(c[i] == t[i - 1]);
                    assert(t[i - 1] < slots.len());
                    assert(!marked[t[i - 1] as int]);
                }
            }
            assert forall|i: int| 0 <= i < c.len() implies (#[trigger] slots[c[i] as int]).next
                == succ(c, i) && slots[c[i] as int].prev == (if i == 0 {
                prev
            } else {
                c[i - 1]
            }) && slots[c[i] as int].level_idx == l by {
                if i > 0 {
                    assert(c[i] == t[i - 1]);
                    assert(slots[t[i - 1] as int].next == succ(t, i - 1));
                    if i > 1 {
                        assert(c[i - 1] == t[i - 2]);
                    }
                    if i + 1 < c.len() {
                        assert(c[i + 1] == t[i]);
                    }
                } else if t.len() > 0 {
                    assert(c[1] == t[0]);
                }
            }
            assert(c.no_duplicates()) by {
                assert forall|i: int, j: int| 0 <= i < j < c.len() implies c[i] != c[j] by {
                    assert(c[j] == t[j - 1]);
                    assert(!marked[t[j - 1] as int]);
                    if i > 0 {
                        assert(c[i] == t[i - 1]);
                    }
                }
            }
            assert(queued(slots, c) == slot.remaining + queued(slots, t)) by {
                crate::book_side::lemma_queued_remove(slots, c, 0);
                assert(c.remove(0) =~= t);
            }
            assert forall|i: int| 0 <= i < live.len() implies (#[trigger] w.live[i] <==> live[i]
                || c.contains(i as u32)) by {
                if t.contains(i as u32) {
                    let j = t.index_of(i as u32);
                    assert(c[j + 1] == i as u32);
                }
                if c.contains(i as u32) {
                    let j = c.index_of(i as u32);
                    if j > 0 {
                        assert(t[j - 1] == i as u32);
                    }
                }
                assert(c[0] == cur);
            }
            c
        }
    }

    /// A level that passes is linked, and its slots are marked.
    proof fn lemma_level_found(&self, s: Side, l: u32, live: Seq<bool>)
        requires
            self.checkable(),
            l < self.cfg.num_levels,
            live.len() == self.arena.slots().len(),
            self.level_walk(s, l, live).fault is None,
        ensures
            ({
                let slots = self.arena.slots();
                let side = self.side_of(s);
                let c = side.chain_at(slots, l as int);
                let w = self.level_walk(s, l, live);
                &&& side.level_linked(slots, l as int)
                &&& bit_at(side.words(), l as int) <==> side.levels()[l as int].order_count > 0
                &&& c.len() == side.levels()[l as int].order_count
                &&& forall|i: int|
                    0 <= i < c.len() ==> self.slot_ok(s, #[trigger] c[i]) && !live[c[i] as int]
                &&& w.live.len() == live.len()
                &&& forall|i: int|
                    0 <= i < live.len() ==> (#[trigger] w.live[i] <==> live[i] || c.contains(
                        i as u32,
                    ))
                &&& count_true(w.live) == count_true(live) + c.len()
            }),
    {
        let slots = self.arena.slots();
        let side = self.side_of(s);
        let lvl = side.levels()[l as int];
        let c = if lvl.order_count == 0 {
            Seq::empty()
        } else {
            self.lemma_fifo_found(s, l, lvl.head, NIL, 0, 0, live)
        };
        assert(lvl.tail == pred(c, c.len() as int));
        assert forall|i: int| 0 <= i < c.len() implies (#[trigger] slots[c[i] as int]).prev == pred(
            c,
            i,
        ) && slots[c[i] as int].level_idx == l by {
            assert(slots[c[i] as int].prev == (if i == 0 {
                NIL
            } else {
                c[i - 1]
            }));
        }
        assert(level_ok(slots, lvl, l as int, c));
        side.lemma_chain_at(slots, l as int, c);
    }

    /// A side whose levels pass from `l` on is linked there, and everything
    /// linked is marked.
    proof fn lemma_levels_found(&self, s: Side, l: int, live: Seq<bool>, best: u32)
        requires
            self.checkable(),
            0 <= l <= self.cfg.num_levels,
            live.len() == self.arena.slots().len(),
            self.levels_walk(s, l, live, best).fault is None,
            best_below(s, self.side_of(s).levels(), l, best),
        ensures
            ({
                let slots = self.arena.slots();
                let side = self.side_of(s);
                let w = self.levels_walk(s, l, live, best);
                &&& forall|m: int|
                    l <= m < self.cfg.num_levels ==> (#[trigger] side.level_linked(slots, m)) && (
                    bit_at(side.words(), m) <==> side.levels()[m].order_count > 0)
                        && side.chain_at(slots, m).len() == side.levels()[m].order_count
                &&& forall|m: int, i: int|
                    #![trigger side.chain_at(slots, m)[i]]
                    l <= m < self.cfg.num_levels && 0 <= i < side.chain_at(slots, m).len()
                        ==> self.slot_ok(s, side.chain_at(slots, m)[i]) && w.live[side.chain_at(
                        slots,
                        m,
                    )[i] as int]
                &&& w.live.len() == live.len()
                &&& forall|i: int| 0 <= i < live.len() && live[i] ==> #[trigger] w.live[i]
                &&& forall|i: int|
                    0 <= i < live.len() && #[trigger] w.live[i] ==> live[i] || exists|m: int|
                        l <= m < self.cfg.num_levels && (#[trigger] side.chain_at(
                            slots,
                            m,
                        )).contains(i as u32)
                &&& count_true(w.live) == count_true(live) + counted_from(side.levels(), l)
                &&& best_below(s, side.levels(), self.cfg.num_levels as int, w.best)
            }),
        decreases self.cfg.num_levels - l,
    {
        let slots = self.arena.slots();
        let side = self.side_of(s);
        if l < self.cfg.num_levels {
            let one = self.level_walk(s, l as u32, live);
            let next = if side.levels()[l].order_count == 0 {
                best
            } else {
                better_of(s, best, l as u32)
            };
            self.lemma_level_found(s, l as u32, live);
            self.lemma_levels_found(s, l + 1, one.live, next);
            let w = self.levels_walk(s, l, live, best);
            let c = side.chain_at(slots, l);
            assert forall|m: int, i: int|
                #![trigger side.chain_at(slots, m)[i]]
                l <= m < self.cfg.num_levels && 0 <= i < side.chain_at(slots, m).len() implies
                self.slot_ok(s, side.chain_at(slots, m)[i]) && w.live[side.chain_at(
                slots,
                m,
            )[i] as int] by {
                if m == l {
                    assert(side.level_linked(slots, l));
                    assert(c[i] < slots.len());
                    assert(c.contains(c[i]));
                    assert(one.live[c[i] as int]);
                }
            }
            assert forall|i: int| 0 <= i < live.len() && #[trigger] w.live[i] implies live[i]
                || exists|m: int|
                l <= m < self.cfg.num_levels && (#[trigger] side.chain_at(slots, m)).contains(
                    i as u32,
                ) by {
                if !one.live[i] {
                    let m = choose|m: int|
                        l + 1 <= m < self.cfg.num_levels && (#[trigger] side.chain_at(
                            slots,
                            m,
                        )).contains(i as u32);
                    assert(side.chain_at(slots, m).contains(i as u32));
                } else if !live[i] {
                    assert(side.chain_at(slots, l).contains(i as u32));
                }
            }
            assert forall|i: int| 0 <= i < live.len() && live[i] implies #[trigger] w.live[i] by {
                assert(one.live[i]);
            }
            assert forall|m: int| l <= m < self.cfg.num_levels implies (
            #[trigger] side.level_linked(slots, m)) && (bit_at(side.words(), m)
                <==> side.levels()[m].order_count > 0) && side.chain_at(slots, m).len()
                == side.levels()[m].order_count by {
                if m > l {
                    assert(side.level_linked(slots, m));
                }
            }
            assert(best_below(s, side.levels(), self.cfg.num_levels as int, w.best));
        }
    }
}

/// The order ids in the first `n` flagged slots.
spec fn flagged_ids(slots: Seq<OrderSlot>, f: Seq<bool>, n: int) -> Set<u64>
    decreases n,
{
    if n <= 0 {
        Set::empty()
    } else if f[n - 1] {
        flagged_ids(slots, f, n - 1).insert(slots[n - 1].order_id)
    } else {
        flagged_ids(slots, f, n - 1)
    }
}

/// Slots that an index tells apart have as many ids as there are of them.
proof fn lemma_flagged_ids(slots: Seq<OrderSlot>, f: Seq<bool>, index: Map<u64, u32>, n: int)
    requires
        0 <= n <= f.len(),
        f.len() == slots.len() < NIL,
        forall|i: int|
            0 <= i < f.len() && #[trigger] f[i] ==> index.contains_key(slots[i].order_id)
                && index[slots[i].order_id] == i,
    ensures
        flagged_ids(slots, f, n).finite(),
        flagged_ids(slots, f, n).len() == count_true(f.take(n)),
        forall|id: u64| #[trigger]
            flagged_ids(slots, f, n).contains(id) ==> index.contains_key(id) && 0 <= index[id] < n
                && f[index[id] as int] && slots[index[id] as int].order_id == id,
    decreases n,
{
    if n > 0 {
        lemma_flagged_ids(slots, f, index, n - 1);
        assert(f.take(n).drop_last() =~= f.take(n - 1));
        if f[n - 1] {
            let id = slots[n - 1].order_id;
            assert(!flagged_ids(slots, f, n - 1).contains(id));
        }
    }
}

/// Marking distinct unmarked slots.
spec fn marked(f: Seq<bool>, free: Seq<u32>, n: int) -> Seq<bool>
    decreases n,
{
    if n <= 0 {
        f
    } else {
        marked(f, free, n - 1).update(free[n - 1] as int, true)
    }
}

proof fn lemma_marked(f: Seq<bool>, free: Seq<u32>, n: int)
    requires
        0 <= n <= free.len(),
        f.len() < NIL,
        free.no_duplicates(),
        forall|k: int| 0 <= k < free.len() ==> #[trigger] free[k] < f.len() && !f[free[k] as int],
    ensures
        marked(f, free, n).len() == f.len(),
        count_true(marked(f, free, n)) == count_true(f) + n,
        forall|i: int|
            0 <= i < f.len() ==> (#[trigger] marked(f, free, n)[i] <==> f[i] || free.take(
                n,
            ).contains(i as u32)),
    decreases n,
{
    if n > 0 {
        lemma_marked(f, free, n - 1);
        let m = marked(f, free, n - 1);
        let x = free[n - 1];
        let before = free.take(n - 1);
        let now = free.take(n);
        assert(now =~= before.push(x));
        assert(!before.contains(x)) by {
            if before.contains(x) {
                let j = before.index_of(x);
                assert(free[j] == x);
            }
        }
        assert(!m[x as int]) by {
            assert(!f[free[n - 1] as int]);
        }
        lemma_count_set(m, x as int);
        assert forall|i: int| 0 <= i < f.len() implies (#[trigger] marked(f, free, n)[i] <==> f[i]
            || now.contains(i as u32)) by {
            if before.contains(i as u32) {
                let j = before.index_of(i as u32);
                assert(now[j] == i as u32);
            }
            if i == x {
                assert(now[n - 1] == i as u32);
            }
            if now.contains(i as u32) && i != x {
                let j = now.index_of(i as u32);
                assert(before[j] == i as u32);
            }
        }
    } else {
        assert(free.take(0) =~= Seq::empty());
    }
}

impl OrderBook {
    /// A free-list that passes holds no live slot and no slot twice.
    proof fn lemma_free_found(&self, free: Seq<u32>, k: int, live: Seq<bool>)
        requires
            0 <= k <= free.len(),
            forall|i: int, j: int| 0 <= i < j < k ==> free[i] != free[j],
        ensures
            self.free_fault(free, k, live) is None <==> {
                &&& forall|i: int| k <= i < free.len() ==> !live[(#[trigger] free[i]) as int]
                &&& free.no_duplicates()
            },
        decreases free.len() - k,
    {
        if k < free.len() {
            let before = free.take(k);
            if before.contains(free[k]) {
                let j = before.index_of(free[k]);
                assert(free[j] == free[k]);
            } else {
                assert forall|i: int, j: int| 0 <= i < j < k + 1 implies free[i] != free[j] by {
                    if j == k {
                        assert(before[i] == free[i]);
                        assert(before.contains(before[i]));
                    }
                }
                self.lemma_free_found(free, k + 1, live);
            }
        }
    }

    /// The levels count the orders of the mathematical book.
    proof fn lemma_counted(&self, s: Side, k: int)
        requires
            self.side_of(s).levels().len() == self.cfg.num_levels,
            0 <= k <= self.cfg.num_levels,
            forall|m: int|
                0 <= m < self.cfg.num_levels ==> (#[trigger] self.side_of(s).chain_at(
                    self.arena.slots(),
                    m,
                )).len() == self.side_of(s).levels()[m].order_count,
        ensures
            order_total(self.ladder(s).take(k)) + counted_from(self.side_of(s).levels(), k)
                == counted_from(self.side_of(s).levels(), 0),
            k == self.cfg.num_levels ==> order_total(self.ladder(s)) == counted_from(
                self.side_of(s).levels(),
                0,
            ),
        decreases k,
    {
        let l = self.ladder(s);
        if k > 0 {
            self.lemma_counted(s, k - 1);
            assert(l.take(k).drop_last() =~= l.take(k - 1));
            assert(l[k - 1].len() == self.side_of(s).chain_at(self.arena.slots(), k - 1).len());
        } else {
            assert(l.take(0).len() == 0);
        }
        if k == self.cfg.num_levels {
            assert(l.take(k) =~= l);
        }
    }

    /// A side that passes is consistent with the arena, and its walk marks
    /// exactly its linked slots.
    proof fn lemma_side_found(&self, s: Side)
        requires
            self.checkable(),
            self.side_walk(s).fault is None,
        ensures
            self.side_of(s).wf(self.arena.slots()),
            self.side_walk(s).live.len() == self.arena.slots().len(),
            forall|l: int, k: int|
                #![trigger self.chains(s)[l][k]]
                0 <= l < self.cfg.num_levels && 0 <= k < self.chains(s)[l].len() ==> self.slot_ok(
                    s,
                    self.chains(s)[l][k],
                ) && self.chains(s)[l][k] < self.arena.slots().len() && self.side_walk(
                    s,
                ).live[self.chains(s)[l][k] as int],
            forall|i: int|
                0 <= i < self.arena.slots().len() && #[trigger] self.side_walk(s).live[i] ==> {
                    let slot = self.arena.slots()[i];
                    &&& slot.level_idx < self.cfg.num_levels
                    &&& Side::from_u8(slot.side) == s
                    &&& self.chains(s)[slot.level_idx as int].contains(i as u32)
                },
            count_true(self.side_walk(s).live) == order_total(self@.side(s)),
    {
        let slots = self.arena.slots();
        let side = self.side_of(s);
        let n = self.cfg.num_levels as int;
        lemma_count_none(self.no_flags());
        self.lemma_levels_found(s, 0, self.no_flags(), NIL);
        let w = self.levels_walk(s, 0, self.no_flags(), NIL);
        assert(is_best(s, side.levels(), side.best_idx()));
        assert forall|i: int| 0 <= i < side.levels().len() implies (#[trigger] bit_at(
            side.words(),
            i,
        ) <==> side.levels()[i].order_count > 0) by {
            assert(side.level_linked(slots, i));
        }
        assert forall|m: int| 0 <= m < n implies (#[trigger] side.chain_at(slots, m)).len()
            == side.levels()[m].order_count by {
            assert(side.level_linked(slots, m));
        }
        self.lemma_counted(s, n);
        assert forall|l: int, k: int|
            #![trigger self.chains(s)[l][k]]
            0 <= l < n && 0 <= k < self.chains(s)[l].len() implies self.slot_ok(
            s,
            self.chains(s)[l][k],
        ) && self.chains(s)[l][k] < slots.len() && w.live[self.chains(s)[l][k] as int] by {
            let c = side.chain_at(slots, l);
            assert(self.chains(s)[l][k] == c[k]);
            assert(side.level_linked(slots, l));
            assert(c[k] < slots.len());
        }
        assert forall|i: int| 0 <= i < slots.len() && #[trigger] w.live[i] implies {
            let slot = slots[i];
            &&& slot.level_idx < n
            &&& Side::from_u8(slot.side) == s
            &&& self.chains(s)[slot.level_idx as int].contains(i as u32)
        } by {
            let m = choose|m: int|
                0 <= m < n && (#[trigger] side.chain_at(slots, m)).contains(i as u32);
            let c = side.chain_at(slots, m);
            let k = c.index_of(i as u32);
            assert(side.level_linked(slots, m));
            assert(slots[c[k] as int].level_idx == m);
            assert(self.slot_ok(s, side.chain_at(slots, m)[k]));
            assert(self.chains(s)[m] == c);
        }
    }

    /// A book without a fault is sound.
    proof fn lemma_no_fault_is_sound(&self)
        requires
            self.checkable(),
            self.first_fault() is None,
        ensures
            self.sound(),
    {
        let slots = self.arena.slots();
        let cap = slots.len();
        let b = self.side_walk(Side::Bid).live;
        let a = self.side_walk(Side::Ask).live;
        let live = either(b, a);
        let head = self.arena.free_head();
        let free = walk(slots, head, cap + 1);
        self.lemma_side_found(Side::Bid);
        self.lemma_side_found(Side::Ask);
        assert forall|i: int| 0 <= i < b.len() implies !(#[trigger] b[i] && a[i]) by {}
        lemma_count_either(b, a);
        lemma_walk_is_list(slots, head, cap + 1);
        assert(links(slots, head, free));
        lemma_chain_unique(slots, head, free);
        assert(self.arena.free_list() == free);
        self.lemma_free_found(free, 0, live);
        assert(self.arena.wf());
        assert(self.parts_ok());
        // Every slot is linked or free.
        assert forall|k: int| 0 <= k < free.len() implies #[trigger] free[k] < live.len()
            && !live[free[k] as int] by {}
        lemma_marked(live, free, free.len() as int);
        lemma_count_all(marked(live, free, free.len() as int));
        assert(free.take(free.len() as int) =~= free);
        assert forall|i: u32| #[trigger] self.arena.live(i) <==> i < cap && live[i as int] by {
            if i < cap {
                assert(marked(live, free, free.len() as int)[i as int]);
                if free.contains(i) {
                    let k = free.index_of(i);
                    assert(!live[free[k] as int]);
                }
            }
        }
        assert forall|s: Side, l: int, k: int|
            #![trigger self.chains(s)[l][k]]
            0 <= l < self.cfg.num_levels && 0 <= k < self.chains(s)[l].len() implies self.slot_ok(
            s,
            self.chains(s)[l][k],
        ) && self.arena.live(self.chains(s)[l][k]) by {
            let i = self.chains(s)[l][k];
            assert(self.side_walk(s).live[i as int]);
            assert(live[i as int]);
        }
        assert forall|i: u32| #[trigger] self.arena.live(i) implies {
            let slot = self.arena.slots()[i as int];
            &&& slot.level_idx < self.cfg.num_levels
            &&& self.chains(Side::from_u8(slot.side))[slot.level_idx as int].contains(i)
        } by {
            if b[i as int] {
                assert(self.side_walk(Side::Bid).live[i as int]);
            } else {
                assert(self.side_walk(Side::Ask).live[i as int]);
            }
        }
        // The index knows the linked slots and no others.
        assert forall|i: int| 0 <= i < live.len() && #[trigger] live[i] implies
            self.index@.contains_key(slots[i].order_id) && self.index@[slots[i].order_id] == i by {
            let s = if b[i] {
                Side::Bid
            } else {
                Side::Ask
            };
            assert(self.side_walk(s).live[i]);
            let c = self.chains(s)[slots[i].level_idx as int];
            let k = c.index_of(i as u32);
            assert(c.contains(i as u32));
            assert(self.slot_ok(s, self.chains(s)[slots[i].level_idx as int][k]));
        }
        lemma_flagged_ids(slots, live, self.index@, cap as int);
        let ids = flagged_ids(slots, live, cap as int);
        assert(live.take(cap as int) =~= live);
        self.index.lemma_finite();
        assert(ids.subset_of(self.index@.dom()));
        vstd::set_lib::lemma_subset_equality(ids, self.index@.dom());
        assert forall|id: u64| #[trigger] self.index@.contains_key(id) implies self.arena.live(
            self.index@[id],
        ) && slots[self.index@[id] as int].order_id == id by {
            assert(ids.contains(id));
        }
    }
}

impl OrderBook {
    /// The walk over a FIFO that is in order finds no fault.
    proof fn lemma_fifo_passes(&self, s: Side, l: u32, c: Seq<u32>, k: int, live: Seq<bool>)
        requires
            self.arena.slots().len() < NIL,
            live.len() == self.arena.slots().len(),
            level_ok(
                self.arena.slots(),
                self.side_of(s).levels()[l as int],
                l as int,
                c,
            ),
            0 <= k <= c.len(),
            forall|i: int| 0 <= i < c.len() ==> self.slot_ok(s, #[trigger] c[i]),
            forall|i: int| k <= i < c.len() ==> !live[(#[trigger] c[i]) as int],
        ensures
            self.fifo_walk(
                s,
                l,
                succ(c, k - 1),
                pred(c, k),
                k as nat,
                queued(self.arena.slots(), c.take(k)),
                live,
            ).fault is None,
        decreases c.len() - k,
    {
        let slots = self.arena.slots();
        if k == c.len() {
            assert(c.take(k) =~= c);
        } else {
            let cur = c[k];
            assert(c[k] < slots.len());
            assert(slots[c[k] as int].next == succ(c, k));
            assert(slots[c[k] as int].prev == pred(c, k));
            let m = live.update(cur as int, true);
            assert forall|i: int| k + 1 <= i < c.len() implies !m[(#[trigger] c[i]) as int] by {
                assert(c[i] != c[k]);
            }
            assert(c.take(k + 1).drop_last() =~= c.take(k));
            assert(self.slot_ok(s, c[k]));
            self.lemma_fifo_passes(s, l, c, k + 1, m);
        }
    }

    /// A consistent side passes.
    proof fn lemma_levels_pass(&self, s: Side, l: int, live: Seq<bool>, best: u32)
        requires
            self.checkable(),
            self.side_of(s).wf(self.arena.slots()),
            0 <= l <= self.cfg.num_levels,
            live.len() == self.arena.slots().len(),
            best_below(s, self.side_of(s).levels(), l, best),
            forall|m: int, i: int|
                #![trigger self.side_of(s).chain_at(self.arena.slots(), m)[i]]
                0 <= m < self.cfg.num_levels && 0 <= i < self.side_of(s).chain_at(
                    self.arena.slots(),
                    m,
                ).len() ==> self.slot_ok(
                    s,
                    self.side_of(s).chain_at(self.arena.slots(), m)[i],
                ) && (m >= l ==> !live[self.side_of(s).chain_at(
                    self.arena.slots(),
                    m,
                )[i] as int]),
        ensures
            self.levels_walk(s, l, live, best).fault is None,
            best_below(
                s,
                self.side_of(s).levels(),
                self.cfg.num_levels as int,
                self.levels_walk(s, l, live, best).best,
            ),
        decreases self.cfg.num_levels - l,
    {
        let slots = self.arena.slots();
        let side = self.side_of(s);
        if l < self.cfg.num_levels {
            let c = side.chain_at(slots, l);
            let lvl = side.levels()[l];
            assert(side.level_linked(slots, l));
            assert forall|i: int| 0 <= i < c.len() implies self.slot_ok(s, #[trigger] c[i])
                && !live[c[i] as int] by {
                assert(side.chain_at(slots, l)[i] == c[i]);
            }
            if lvl.order_count > 0 {
                assert(c.take(0) =~= Seq::empty());
                self.lemma_fifo_passes(s, l as u32, c, 0, live);
            } else {
                assert(c =~= Seq::empty());
            }
            assert(self.level_walk(s, l as u32, live).fault is None);
            self.lemma_level_found(s, l as u32, live);
            let one = self.level_walk(s, l as u32, live);
            let next = if lvl.order_count == 0 {
                best
            } else {
                better_of(s, best, l as u32)
            };
            assert forall|m: int, i: int|
                #![trigger side.chain_at(slots, m)[i]]
                0 <= m < self.cfg.num_levels && 0 <= i < side.chain_at(slots, m).len() implies
                self.slot_ok(s, side.chain_at(slots, m)[i]) && (m >= l + 1
                ==> !one.live[side.chain_at(slots, m)[i] as int]) by {
                let x = side.chain_at(slots, m)[i];
                if m >= l + 1 {
                    assert(side.level_linked(slots, m));
                    assert(slots[side.chain_at(slots, m)[i] as int].level_idx == m);
                    assert(x < slots.len());
                    if c.contains(x) {
                        let j = c.index_of(x);
                        assert(slots[c[j] as int].level_idx == l);
                    }
                }
            }
            self.lemma_levels_pass(s, l + 1, one.live, next);
        }
    }

    /// A consistent side passes.
    proof fn lemma_side_passes(&self, s: Side)
        requires
            self.checkable(),
            self.parts_ok(),
            forall|l: int, k: int|
                #![trigger self.chains(s)[l][k]]
                0 <= l < self.cfg.num_levels && 0 <= k < self.chains(s)[l].len() ==> self.slot_ok(
                    s,
                    self.chains(s)[l][k],
                ),
        ensures
            self.side_walk(s).fault is None,
    {
        let slots = self.arena.slots();
        let side = self.side_of(s);
        assert forall|m: int, i: int|
            #![trigger side.chain_at(slots, m)[i]]
            0 <= m < self.cfg.num_levels && 0 <= i < side.chain_at(slots, m).len() implies
            self.slot_ok(s, side.chain_at(slots, m)[i])
            && !self.no_flags()[side.chain_at(slots, m)[i] as int] by {
            assert(self.chains(s)[m][i] == side.chain_at(slots, m)[i]);
            assert(side.level_linked(slots, m));
            assert(side.chain_at(slots, m)[i] < slots.len());
        }
        self.lemma_levels_pass(s, 0, self.no_flags(), NIL);
        let w = self.levels_walk(s, 0, self.no_flags(), NIL);
        lemma_best_same(s, side.levels(), w.best, side.best_idx());
    }

    /// A sound book shows no fault.
    proof fn lemma_sound_has_no_fault(&self)
        requires
            self.checkable(),
            self.sound(),
        ensures
            self.first_fault() is None,
    {
        let slots = self.arena.slots();
        let cap = slots.len();
        let b = self.side_walk(Side::Bid).live;
        let a = self.side_walk(Side::Ask).live;
        let live = either(b, a);
        let head = self.arena.free_head();
        let free = walk(slots, head, cap + 1);
        self.lemma_side_passes(Side::Bid);
        self.lemma_side_passes(Side::Ask);
        self.lemma_side_found(Side::Bid);
        self.lemma_side_found(Side::Ask);
        assert forall|i: int| 0 <= i < b.len() implies !(#[trigger] b[i] && a[i]) by {
            if b[i] && a[i] {
                assert(self.side_walk(Side::Bid).live[i]);
                assert(self.side_walk(Side::Ask).live[i]);
            }
        }
        lemma_count_either(b, a);
        Arena::lemma_chain_len(slots, head, (cap - self.arena.live_len()) as nat);
        lemma_list_is_walk(slots, head, self.arena.free_list(), cap + 1);
        assert(free == self.arena.free_list());
        assert forall|i: int| 0 <= i < free.len() implies !live[(#[trigger] free[i]) as int] by {
            let x = free[i];
            assert(x < slots.len());
            assert(free.contains(x));
            if live[x as int] {
                let s = if b[x as int] {
                    Side::Bid
                } else {
                    Side::Ask
                };
                assert(self.side_walk(s).live[x as int]);
                let c = self.chains(s)[slots[x as int].level_idx as int];
                let k = c.index_of(x);
                assert(c.contains(x));
                assert(self.arena.live(self.chains(s)[slots[x as int].level_idx as int][k]));
            }
        }
        self.lemma_free_found(free, 0, live);
    }

    /// A consistent book can be looked at.
    pub proof fn lemma_wf_checkable(&self)
        requires
            self.wf(),
        ensures
            self.checkable(),
    {
        let slots = self.arena.slots();
        assert forall|s: Side| self.side_checkable(s) by {
            let side = self.side_of(s);
            assert forall|l: int| 0 <= l < side.levels().len() implies link_ok(
                slots,
                (#[trigger] side.levels()[l]).head,
            ) by {
                assert(side.level_linked(slots, l));
                let c = side.chain_at(slots, l);
                if c.len() > 0 {
                    assert(c[0] < slots.len());
                }
            }
        }
        let f = self.arena.free_list();
        assert forall|i: int| 0 <= i < slots.len() implies link_ok(
            slots,
            (#[trigger] slots[i]).next,
        ) by {
            if self.arena.live(i as u32) {
                let p = self.lemma_place(i as u32);
                self.lemma_linked(p.0, p.1, p.2);
                let c = self.chains(p.0)[p.1];
                assert(slots[c[p.2] as int].next == succ(c, p.2));
                if p.2 + 1 < c.len() {
                    assert(c[p.2 + 1] < slots.len());
                }
            } else {
                let k = f.index_of(i as u32);
                assert(f.contains(i as u32));
                assert(slots[f[k] as int].next == succ(f, k));
                if k + 1 < f.len() {
                    assert(f[k + 1] < slots.len());
                }
            }
        }
        if f.len() > 0 {
            assert(f[0] < slots.len());
        }
    }

    /// Walking one side of a consistent book finds no fault, and marks as many
    /// slots as that side has orders; no slot is marked on both sides.
    pub proof fn law_sides_share_no_slot(&self)
        requires
            self.wf(),
        ensures
            forall|s: Side|
                #![trigger self.side_walk(s)]
                {
                    &&& self.side_walk(s).fault is None
                    &&& self.side_walk(s).live.len() == self@.cfg.max_live_orders
                    &&& count_true(self.side_walk(s).live) == order_total(self@.side(s))
                    &&& count_true(self.side_walk(s).live) == all_orders(self@).filter(
                        on_side(s),
                    ).len()
                },
            forall|i: int|
                0 <= i < self@.cfg.max_live_orders ==> !(#[trigger] self.side_walk(
                    Side::Bid,
                ).live[i] && self.side_walk(Side::Ask).live[i]),
    {
        self.lemma_wf_checkable();
        self.lemma_model_wf();
        assert forall|s: Side|
            #![trigger self.side_walk(s)]
            {
                &&& self.side_walk(s).fault is None
                &&& self.side_walk(s).live.len() == self@.cfg.max_live_orders
                &&& count_true(self.side_walk(s).live) == order_total(self@.side(s))
                &&& count_true(self.side_walk(s).live) == all_orders(self@).filter(
                    on_side(s),
                ).len()
            } by {
            assert forall|l: int, k: int|
                #![trigger self.chains(s)[l][k]]
                0 <= l < self.cfg.num_levels && 0 <= k < self.chains(s)[l].len() implies self.slot_ok(
                s,
                self.chains(s)[l][k],
            ) by {
                assert(self.placed(s, l, self.chains(s)[l][k]));
            }
            self.lemma_side_passes(s);
            self.lemma_side_found(s);
            lemma_listed_sides(self@, s);
        }
        assert forall|i: int| 0 <= i < self@.cfg.max_live_orders implies !(
        #[trigger] self.side_walk(Side::Bid).live[i] && self.side_walk(Side::Ask).live[i]) by {
            self.lemma_side_found(Side::Bid);
            self.lemma_side_found(Side::Ask);
            if self.side_walk(Side::Bid).live[i] && self.side_walk(Side::Ask).live[i] {
                assert(Side::from_u8(self.arena.slots()[i].side) == Side::Bid);
            }
        }
    }

    /// Crossed in the mathematical book is crossed at the cached bests.
    proof fn lemma_uncrossed_bests(&self)
        requires
            self.wf(),
        ensures
            self@.uncrossed() <==> (self.bids.best_idx() == NIL || self.asks.best_idx() == NIL
                || self.bids.best_idx() < self.asks.best_idx()),
    {
        self.lemma_best(Side::Bid);
        self.lemma_best(Side::Ask);
        let m = self@;
        let bb = self.bids.best_idx();
        let ba = self.asks.best_idx();
        if bb != NIL && ba != NIL {
            assert(m.bids[bb as int].len() > 0 && m.asks[ba as int].len() > 0);
            if bb < ba {
                assert forall|i: int, j: int|
                    0 <= i < m.bids.len() && 0 <= j < m.asks.len() && (#[trigger] m.bids[i]).len()
                        > 0 && (#[trigger] m.asks[j]).len() > 0 implies i < j by {}
            }
        } else if bb == NIL {
            crate::model::lemma_best_none(Side::Bid, m.bids);
        } else {
            crate::model::lemma_best_none(Side::Ask, m.asks);
        }
    }

    /// A consistent book is sound where it is not crossed.
    proof fn lemma_wf_sound(&self)
        requires
            self.checkable(),
        ensures
            self.wf() ==> (self.sound() <==> self@.uncrossed()),
    {
        if self.wf() {
            self.lemma_uncrossed_bests();
            self.law_sound_and_priced_is_consistent();
        }
    }

    /// The validator is right: it reports nothing exactly on books whose
    /// every state invariant holds.
    pub proof fn law_validate_is_right(&self)
        requires
            self.checkable(),
        ensures
            self.first_fault() is None <==> self.sound(),
    {
        if self.first_fault() is None {
            self.lemma_no_fault_is_sound();
        }
        if self.sound() {
            self.lemma_sound_has_no_fault();
        }
    }

    /// Sound books whose orders rest at the levels of their prices are the
    /// consistent ones that are not crossed.
    pub proof fn law_sound_and_priced_is_consistent(&self)
        requires
            self.checkable(),
        ensures
            self.sound() && self.priced() <==> self.wf() && self@.uncrossed(),
    {
        if self.sound() && self.priced() {
            assert forall|s: Side, l: int, k: int|
                #![trigger self.chains(s)[l][k]]
                0 <= l < self.cfg.num_levels && 0 <= k < self.chains(s)[l].len() implies self.placed(
                s,
                l,
                self.chains(s)[l][k],
            ) by {
                assert(self.slot_ok(s, self.chains(s)[l][k]));
            }
            self.lemma_uncrossed_bests();
        }
        if self.wf() {
            self.lemma_uncrossed_bests();
            assert forall|s: Side, l: int, k: int|
                #![trigger self.chains(s)[l][k]]
                0 <= l < self.cfg.num_levels && 0 <= k < self.chains(s)[l].len() implies self.slot_ok(
                s,
                self.chains(s)[l][k],
            ) && self.arena.live(self.chains(s)[l][k]) && self.cfg.on_level(
                Price(self.arena.slots()[self.chains(s)[l][k] as int].price),
                l,
            ) by {
                assert(self.placed(s, l, self.chains(s)[l][k]));
            }
        }
    }
}

/// Two ways to the best level lead to the same one.
proof fn lemma_best_same(s: Side, levels: Seq<Level>, a: u32, b: u32)
    requires
        best_below(s, levels, levels.len() as int, a),
        is_best(s, levels, b),
        levels.len() <= u32::MAX,
    ensures
        a == b,
{
    if a != NIL && b != NIL {
        assert(levels[a as int].order_count > 0);
        assert(levels[b as int].order_count > 0);
    } else if a != NIL {
        assert(levels[a as int].order_count > 0);
    } else if b != NIL {
        assert(levels[b as int].order_count > 0);
    }
}

} // verus!
