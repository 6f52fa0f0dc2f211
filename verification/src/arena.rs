//! The order arena: every live order lives in one contiguous, pre-allocated
//! slab. An order is a `u32` index into it, never a pointer, never a `Box`.
//!
//! Freed slots are chained into an intrusive free-list that reuses the
//! `next` field, so slot recycling costs zero extra memory. The arena is
//! the ONLY allocation the engine makes, once, at startup.

use vstd::prelude::*;

verus! {

/// Universal sentinel for "no order" / "no level". Never `0`: zero is a
/// valid index.
pub const NIL: u32 = u32::MAX;

/// One resting order.
///
/// `remaining`, `order_id`, `next`, `prev`, `price`, `trader`, and
/// `level_idx` are touched on every fill or cancel; the rest is only read
/// when resting or snapshotting. A slot fits in one 64-byte cache line.
#[derive(Copy, Clone, Debug)]
pub struct OrderSlot {
    pub remaining: u64,
    pub order_id: u64,
    /// Intrusive FIFO forward link (also the free-list link when freed).
    pub next: u32,
    /// Intrusive FIFO backward link.
    pub prev: u32,
    pub price: i64,
    pub trader: u32,
    /// Which level this order is linked into. Makes cancel O(1).
    pub level_idx: u32,
    pub original_qty: u64,
    /// 0 = Bid, 1 = Ask (see `Side::to_u8` / `Side::from_u8`).
    pub side: u8,
    /// Encoded `SelfTradePrevention` (see `SelfTradePrevention::to_u8`).
    pub stp: u8,
}

impl OrderSlot {
    /// The two slots hold the same order, wherever they are linked.
    pub open spec fn same_order(self, other: OrderSlot) -> bool {
        &&& self.remaining == other.remaining
        &&& self.order_id == other.order_id
        &&& self.price == other.price
        &&& self.trader == other.trader
        &&& self.original_qty == other.original_qty
        &&& self.side == other.side
        &&& self.stp == other.stp
    }

    /// A slot that never held an order, with its free-list link.
    pub open spec fn blank(next: u32) -> OrderSlot {
        OrderSlot {
            remaining: 0,
            order_id: 0,
            next,
            prev: NIL,
            price: 0,
            trader: 0,
            level_idx: NIL,
            original_qty: 0,
            side: 0,
            stp: 0,
        }
    }

    /// A slot that holds no order, with its free-list link.
    fn vacant(next: u32) -> (s: OrderSlot)
        ensures
            s == OrderSlot::blank(next),
    {
        OrderSlot {
            remaining: 0,
            order_id: 0,
            next,
            prev: NIL,
            price: 0,
            trader: 0,
            level_idx: NIL,
            original_qty: 0,
            side: 0,
            stp: 0,
        }
    }
}

/// The `n` indices met on the way from `head` along the `next` links.
pub open spec fn chain(slots: Seq<OrderSlot>, head: u32, n: nat) -> Seq<u32>
    decreases n,
{
    if n == 0 {
        Seq::empty()
    } else {
        seq![head] + chain(slots, slots[head as int].next, (n - 1) as nat)
    }
}

/// What stands behind position `i` of a list, `NIL` behind its end.
pub open spec fn succ(s: Seq<u32>, i: int) -> u32 {
    if i + 1 < s.len() {
        s[i + 1]
    } else {
        NIL
    }
}

/// What stands before position `i` of a list, `NIL` before its start.
pub open spec fn pred(s: Seq<u32>, i: int) -> u32 {
    if i > 0 {
        s[i - 1]
    } else {
        NIL
    }
}

/// `s` is the list that starts at `head` and runs along the `next` links
/// until `NIL`.
pub open spec fn links(slots: Seq<OrderSlot>, head: u32, s: Seq<u32>) -> bool {
    &&& head == succ(s, -1)
    &&& forall|i: int| 0 <= i < s.len() ==> #[trigger] s[i] < slots.len()
    &&& forall|i: int|
        0 <= i < s.len() ==> (#[trigger] slots[s[i] as int]).next == succ(s, i)
}

/// The indices met on the way from `cur` along the `next` links, until `NIL`
/// or until `n` of them were met.
pub open spec fn walk(slots: Seq<OrderSlot>, cur: u32, n: nat) -> Seq<u32>
    decreases n,
{
    if n == 0 || cur == NIL {
        Seq::empty()
    } else {
        seq![cur] + walk(slots, slots[cur as int].next, (n - 1) as nat)
    }
}

/// A link that can be followed, or the end.
pub open spec fn link_ok(slots: Seq<OrderSlot>, i: u32) -> bool {
    i == NIL || i < slots.len()
}

/// Every link met on that way can be followed.
pub open spec fn followable(slots: Seq<OrderSlot>, cur: u32, n: nat) -> bool
    decreases n,
{
    n == 0 || cur == NIL || (cur < slots.len() && followable(
        slots,
        slots[cur as int].next,
        (n - 1) as nat,
    ))
}

/// Where every link can be followed, every way can.
pub proof fn lemma_followable(slots: Seq<OrderSlot>, cur: u32, n: nat)
    requires
        link_ok(slots, cur),
        forall|i: int| 0 <= i < slots.len() ==> link_ok(slots, (#[trigger] slots[i]).next),
    ensures
        followable(slots, cur, n),
    decreases n,
{
    if n > 0 && cur != NIL {
        lemma_followable(slots, slots[cur as int].next, (n - 1) as nat);
    }
}

/// A list can be followed to its end.
pub proof fn lemma_list_followable(slots: Seq<OrderSlot>, cur: u32, s: Seq<u32>, n: nat)
    requires
        links(slots, cur, s),
    ensures
        followable(slots, cur, n),
    decreases n,
{
    if n > 0 && cur != NIL {
        let t = s.skip(1);
        assert(s[0] < slots.len());
        assert(slots[s[0] as int].next == succ(s, 0));
        assert forall|i: int| 0 <= i < t.len() implies #[trigger] t[i] < slots.len() by {
            assert(t[i] == s[i + 1]);
        }
        assert forall|i: int| 0 <= i < t.len() implies (#[trigger] slots[t[i] as int]).next == succ(
            t,
            i,
        ) by {
            assert(slots[s[i + 1] as int].next == succ(s, i + 1));
        }
        lemma_list_followable(slots, slots[cur as int].next, t, (n - 1) as nat);
    }
}

/// A walk that is not cut short is the list.
pub proof fn lemma_walk_is_list(slots: Seq<OrderSlot>, cur: u32, n: nat)
    requires
        slots.len() < NIL,
        link_ok(slots, cur),
        forall|i: int| 0 <= i < slots.len() ==> link_ok(slots, (#[trigger] slots[i]).next),
    ensures
        walk(slots, cur, n).len() <= n,
        forall|k: int| 0 <= k < walk(slots, cur, n).len() ==> #[trigger] walk(slots, cur, n)[k]
            < slots.len(),
        walk(slots, cur, n).len() < n ==> links(slots, cur, walk(slots, cur, n)),
    decreases n,
{
    if n > 0 && cur != NIL {
        let next = slots[cur as int].next;
        let t = walk(slots, next, (n - 1) as nat);
        let w = walk(slots, cur, n);
        lemma_walk_is_list(slots, next, (n - 1) as nat);
        assert forall|k: int| 0 <= k < w.len() implies #[trigger] w[k] < slots.len() by {
            if k > 0 {
                assert(w[k] == t[k - 1]);
            }
        }
        if w.len() < n {
            assert forall|k: int| 0 <= k < w.len() implies (#[trigger] slots[w[k] as int]).next
                == succ(w, k) by {
                if k > 0 {
                    assert(w[k] == t[k - 1]);
                    assert(slots[t[k - 1] as int].next == succ(t, k - 1));
                    if k + 1 < w.len() {
                        assert(w[k + 1] == t[k]);
                    }
                } else if w.len() > 1 {
                    assert(w[1] == t[0]);
                }
            }
        }
    }
}

/// A list is what a walk of at least its length finds.
pub proof fn lemma_list_is_walk(slots: Seq<OrderSlot>, cur: u32, s: Seq<u32>, n: nat)
    requires
        slots.len() < NIL,
        links(slots, cur, s),
        s.len() <= n,
    ensures
        walk(slots, cur, n) == s,
    decreases s.len(),
{
    if s.len() > 0 {
        assert(s[0] < slots.len());
        let t = s.skip(1);
        let next = slots[s[0] as int].next;
        assert(next == succ(s, 0));
        assert forall|i: int| 0 <= i < t.len() implies #[trigger] t[i] < slots.len() by {
            assert(t[i] == s[i + 1]);
        }
        assert forall|i: int| 0 <= i < t.len() implies (#[trigger] slots[t[i] as int]).next == succ(
            t,
            i,
        ) by {
            assert(slots[s[i + 1] as int].next == succ(s, i + 1));
        }
        lemma_list_is_walk(slots, next, t, (n - 1) as nat);
        assert(s =~= seq![cur] + t);
    } else {
        assert(walk(slots, cur, n) =~= s);
    }
}

/// A list is determined by its head and its length.
pub proof fn lemma_chain_unique(slots: Seq<OrderSlot>, head: u32, s: Seq<u32>)
    requires
        links(slots, head, s),
    ensures
        chain(slots, head, s.len()) == s,
    decreases s.len(),
{
    if s.len() > 0 {
        let t = s.skip(1);
        let h = slots[s[0] as int].next;
        assert(h == succ(s, 0));
        assert forall|i: int| 0 <= i < t.len() implies (#[trigger] slots[t[i] as int]).next == succ(
            t,
            i,
        ) by {
            assert(slots[s[i + 1] as int].next == succ(s, i + 1));
        }
        lemma_chain_unique(slots, h, t);
        assert(s =~= seq![head] + t);
    }
}

/// A list stays the list when the slots on it keep their links.
pub proof fn lemma_links_frame(a: Seq<OrderSlot>, b: Seq<OrderSlot>, head: u32, s: Seq<u32>)
    requires
        links(a, head, s),
        a.len() == b.len(),
        forall|i: int|
            0 <= i < s.len() ==> a[s[i] as int].next == (#[trigger] b[s[i] as int]).next,
    ensures
        links(b, head, s),
        chain(b, head, s.len()) == s,
{
    assert forall|i: int| 0 <= i < s.len() implies (#[trigger] b[s[i] as int]).next == succ(
        s,
        i,
    ) by {
        assert(a[s[i] as int].next == succ(s, i));
    }
    lemma_chain_unique(b, head, s);
}

/// Distinct indices below `n` are at most `n` many.
pub proof fn lemma_distinct_bound(s: Seq<u32>, n: nat)
    requires
        s.no_duplicates(),
        forall|i: int| 0 <= i < s.len() ==> #[trigger] s[i] < n,
    ensures
        s.len() <= n,
    decreases n,
{
    if n == 0 {
        if s.len() > 0 {
            assert(s[0] < 0);
        }
    } else if exists|k: int| 0 <= k < s.len() && #[trigger] s[k] == n - 1 {
        let k = choose|k: int| 0 <= k < s.len() && #[trigger] s[k] == n - 1;
        let t = s.remove(k);
        assert forall|i: int| 0 <= i < t.len() implies #[trigger] t[i] < n - 1 by {
            assert(t[i] == if i < k { s[i] } else { s[i + 1] });
        }
        assert(t.no_duplicates());
        lemma_distinct_bound(t, (n - 1) as nat);
    } else {
        lemma_distinct_bound(s, (n - 1) as nat);
    }
}

/// The slab of order slots and its free-list.
pub struct Arena {
    slots: Vec<OrderSlot>,
    /// Head of the intrusive free-list (`NIL` when the arena is full).
    free_head: u32,
    /// Number of live (allocated) slots.
    len: u32,
}

impl Arena {
    /// Every slot, live or free.
    pub closed spec fn slots(&self) -> Seq<OrderSlot> {
        self.slots@
    }

    /// Where the free-list starts.
    pub closed spec fn free_head(&self) -> u32 {
        self.free_head
    }

    /// How many slots are live.
    pub closed spec fn live_len(&self) -> nat {
        self.len as nat
    }

    /// The free slots, next to be handed out first.
    pub open spec fn free_list(&self) -> Seq<u32> {
        chain(self.slots(), self.free_head(), (self.slots().len() - self.live_len()) as nat)
    }

    /// The free-list is a proper list of distinct slots, and every other slot
    /// is counted as live.
    pub open spec fn wf(&self) -> bool {
        &&& self.slots().len() < NIL
        &&& self.live_len() <= self.slots().len()
        &&& links(self.slots(), self.free_head(), self.free_list())
        &&& self.free_list().no_duplicates()
    }

    /// Every link can be followed.
    pub open spec fn walkable(&self) -> bool {
        &&& self.slots().len() < NIL
        &&& link_ok(self.slots(), self.free_head())
        &&& forall|i: int|
            0 <= i < self.slots().len() ==> link_ok(self.slots(), (#[trigger] self.slots()[i]).next)
    }

    /// Slot `i` holds a live order.
    pub open spec fn live(&self, i: u32) -> bool {
        i < self.slots().len() && !self.free_list().contains(i)
    }

    /// A chain is as long as it was asked to be.
    pub proof fn lemma_chain_len(slots: Seq<OrderSlot>, head: u32, n: nat)
        ensures
            chain(slots, head, n).len() == n,
        decreases n,
    {
        if n > 0 {
            Self::lemma_chain_len(slots, slots[head as int].next, (n - 1) as nat);
        }
    }

    /// Writing to live slots leaves the free-list as it was.
    pub proof fn lemma_frame(&self, post: &Arena)
        requires
            self.wf(),
            post.slots().len() == self.slots().len(),
            post.free_head() == self.free_head(),
            post.live_len() == self.live_len(),
            forall|i: u32|
                self.free_list().contains(i) ==> self.slots()[i as int].next == (
                #[trigger] post.slots()[i as int]).next,
        ensures
            post.wf(),
            post.free_list() == self.free_list(),
            forall|i: u32| #[trigger] post.live(i) <==> self.live(i),
    {
        let f = self.free_list();
        Self::lemma_chain_len(self.slots(), self.free_head(), (self.slots().len() - self.live_len()) as nat);
        assert forall|i: int| 0 <= i < f.len() implies self.slots()[f[i] as int].next == (
        #[trigger] post.slots()[f[i] as int]).next by {
            assert(f.contains(f[i]));
        }
        lemma_links_frame(self.slots(), post.slots(), self.free_head(), f);
    }

    /// Pre-allocate `n` slots and chain them all into the free-list.
    /// This is the only allocation in the engine's lifetime.
    ///
    /// `n` must be < `NIL` so every slot has a representable index.
    pub fn with_capacity(n: u32) -> (a: Self)
        requires
            n < NIL,
        ensures
            a.wf(),
            a.slots().len() == n,
            a.live_len() == 0,
            a.free_list() == Seq::new(n as nat, |i: int| i as u32),
            forall|k: int|
                0 <= k < n ==> #[trigger] a.slots()[k] == OrderSlot::blank(
                    if k + 1 < n {
                        (k + 1) as u32
                    } else {
                        NIL
                    },
                ),
    {
        let mut slots: Vec<OrderSlot> = Vec::with_capacity(n as usize);
        let mut i: u32 = 0;
        while i < n
            invariant
                i <= n < NIL,
                slots@.len() == i,
                forall|k: int|
                    0 <= k < i ==> #[trigger] slots@[k] == OrderSlot::blank(
                        if k + 1 < n {
                            (k + 1) as u32
                        } else {
                            NIL
                        },
                    ),
            decreases n - i,
        {
            slots.push(
                OrderSlot::vacant(
                    if i + 1 < n {
                        i + 1
                    } else {
                        NIL
                    },
                ),
            );
            i += 1;
        }
        let a = Arena {
            slots,
            free_head: if n == 0 {
                NIL
            } else {
                0
            },
            len: 0,
        };
        proof {
            let f = Seq::new(n as nat, |i: int| i as u32);
            assert(links(a.slots(), a.free_head(), f));
            lemma_chain_unique(a.slots(), a.free_head(), f);
        }
        a
    }

    /// Pop a slot off the free-list. `None` when full: the caller emits
    /// `RejectReason::ArenaFull`. Never allocates.
    pub fn alloc_slot(&mut self) -> (r: Option<u32>)
        requires
            old(self).wf(),
        ensures
            final(self).wf(),
            final(self).slots() == old(self).slots(),
            (r, final(self).free_list()) == taken(old(self).free_list()),
            match r {
                None => {
                    &&& old(self).free_list().len() == 0
                    &&& final(self).live_len() == old(self).live_len()
                    &&& final(self).free_list() == old(self).free_list()
                },
                Some(idx) => {
                    &&& old(self).free_list().len() > 0
                    &&& idx == old(self).free_list()[0]
                    &&& final(self).live_len() == old(self).live_len() + 1
                    &&& final(self).free_list() == old(self).free_list().skip(1)
                    &&& !old(self).live(idx)
                    &&& forall|i: u32| #[trigger]
                        final(self).live(i) <==> i == idx || old(self).live(i)
                },
            },
    {
        let idx = self.free_head;
        let ghost f = self.free_list();
        proof {
            Self::lemma_chain_len(self.slots(), self.free_head(), (self.slots().len() - self.live_len()) as nat);
        }
        if idx == NIL {
            proof {
                if f.len() > 0 {
                    assert(f[0] < self.slots().len());
                }
            }
            return None;
        }
        assert(f.len() > 0);
        assert(f[0] == idx);
        assert(self.slots()[f[0] as int].next == succ(f, 0));
        self.free_head = self.slots[idx as usize].next;
        self.len += 1;
        proof {
            let t = f.skip(1);
            assert forall|i: int| 0 <= i < t.len() implies (
            #[trigger] self.slots()[t[i] as int]).next == succ(t, i) by {
                assert(self.slots()[f[i + 1] as int].next == succ(f, i + 1));
            }
            lemma_chain_unique(self.slots(), self.free_head(), t);
            assert(self.free_list() == t);
            assert(f.contains(f[0]));
            assert forall|i: u32| #[trigger] self.live(i) <==> i == idx || old(self).live(i) by {
                if f.contains(i) && i != idx {
                    let k = choose|k: int| 0 <= k < f.len() && f[k] == i;
                    assert(t[k - 1] == i);
                }
                if t.contains(i) {
                    let k = choose|k: int| 0 <= k < t.len() && t[k] == i;
                    assert(f[k + 1] == i);
                }
            }
        }
        Some(idx)
    }

    /// Push a slot back onto the free-list. Overwrites `next`: callers
    /// walking a FIFO must cache `next` BEFORE freeing.
    pub fn free(&mut self, idx: u32)
        requires
            old(self).wf(),
            old(self).live(idx),
        ensures
            final(self).wf(),
            final(self).slots() == old(self).slots().update(
                idx as int,
                OrderSlot { next: old(self).free_head(), ..old(self).slots()[idx as int] },
            ),
            final(self).live_len() == old(self).live_len() - 1,
            final(self).free_list() == given_back(old(self).free_list(), idx),
            forall|i: u32| #[trigger] final(self).live(i) <==> i != idx && old(self).live(i),
    {
        let ghost f = self.free_list();
        proof {
            Self::lemma_chain_len(self.slots(), self.free_head(), (self.slots().len() - self.live_len()) as nat);
            assert forall|i: int| 0 <= i < f.push(idx).len() implies #[trigger] f.push(idx)[i]
                < self.slots().len() by {
                if i < f.len() {
                    assert(f[i] < self.slots().len());
                }
            }
            lemma_distinct_bound(f.push(idx), self.slots().len());
        }
        self.slots[idx as usize].next = self.free_head;
        self.free_head = idx;
        self.len -= 1;
        proof {
            let t = seq![idx] + f;
            assert forall|i: int| 0 <= i < t.len() implies (
            #[trigger] self.slots()[t[i] as int]).next == succ(t, i) by {
                if i > 0 {
                    assert(f[i - 1] == t[i]);
                    assert(f.contains(f[i - 1]));
                    assert(old(self).slots()[f[i - 1] as int].next == succ(f, i - 1));
                }
            }
            assert(links(self.slots(), self.free_head(), t));
            lemma_chain_unique(self.slots(), self.free_head(), t);
            assert forall|i: u32| #[trigger] self.live(i) <==> i != idx && old(self).live(i) by {
                if f.contains(i) {
                    let k = choose|k: int| 0 <= k < f.len() && f[k] == i;
                    assert(t[k + 1] == i);
                }
                assert(t[0] == idx);
            }
            assert(t.no_duplicates()) by {
                assert(!f.contains(idx));
                assert forall|i: int, j: int| 0 <= i < j < t.len() implies t[i] != t[j] by {
                    if i == 0 {
                        assert(f.contains(f[j - 1]));
                    }
                }
            }
        }
    }

    /// No slot is left.
    pub fn is_full(&self) -> (r: bool)
        requires
            self.wf(),
        ensures
            r == (self.live_len() == self.slots().len()),
            r == (self.free_list().len() == 0),
    {
        proof {
            Self::lemma_chain_len(self.slots(), self.free_head(), (self.slots().len() - self.live_len()) as nat);
            if self.free_list().len() > 0 {
                assert(self.free_list()[0] < self.slots().len());
            }
        }
        self.free_head == NIL
    }

    /// How many slots are live.
    pub fn len(&self) -> (n: u32)
        ensures
            n == self.live_len(),
    {
        self.len
    }

    /// No slot is live.
    pub fn is_empty(&self) -> (r: bool)
        ensures
            r == (self.live_len() == 0),
    {
        self.len == 0
    }

    /// How many slots there are.
    pub fn capacity(&self) -> (n: u32)
        requires
            self.slots().len() <= u32::MAX,
        ensures
            n == self.slots().len(),
    {
        self.slots.len() as u32
    }

    /// Free-list traversal for the validator: indices currently on
    /// the free-list, in list order. Cold path only.
    ///
    /// A bounded walk: a cycle in the free-list must not hang the validator.
    pub fn free_list_indices(&self) -> (v: Vec<u32>)
        requires
            self.wf() || followable(self.slots(), self.free_head(), self.slots().len() + 1),
        ensures
            v@ == walk(self.slots(), self.free_head(), self.slots().len() + 1),
            self.wf() ==> v@ == self.free_list(),
    {
        let n = self.slots.len();
        let ghost all = walk(self.slots(), self.free_head(), n as nat + 1);
        let mut v: Vec<u32> = Vec::new();
        let mut cur = self.free_head;
        proof {
            assert(v@ + all =~= all);
            if self.wf() {
                let f = self.free_list();
                lemma_list_followable(self.slots(), self.free_head(), f, n as nat + 1);
                Self::lemma_chain_len(
                    self.slots(),
                    self.free_head(),
                    (self.slots().len() - self.live_len()) as nat,
                );
                lemma_list_is_walk(self.slots(), self.free_head(), f, n as nat + 1);
            }
        }
        while cur != NIL && v.len() <= n
            invariant
                n == self.slots().len(),
                v@.len() <= n + 1,
                followable(self.slots(), cur, (n + 1 - v@.len()) as nat),
                all == v@ + walk(self.slots(), cur, (n + 1 - v@.len()) as nat),
            decreases n + 1 - v@.len(),
        {
            let ghost before = v@;
            v.push(cur);
            cur = self.slots[cur as usize].next;
            proof {
                assert(all =~= v@ + walk(self.slots(), cur, (n + 1 - v@.len()) as nat));
            }
        }
        proof {
            assert(all =~= v@);
        }
        v
    }

    /// Read a slot.
    pub fn slot(&self, idx: u32) -> (s: &OrderSlot)
        requires
            idx < self.slots().len(),
        ensures
            *s == self.slots()[idx as int],
    {
        &self.slots[idx as usize]
    }

    /// Write to a slot.
    pub fn slot_mut(&mut self, idx: u32) -> (s: &mut OrderSlot)
        requires
            idx < old(self).slots().len(),
        ensures
            *s == old(self).slots()[idx as int],
            final(self).slots() == old(self).slots().update(idx as int, *final(s)),
            final(self).free_head() == old(self).free_head(),
            final(self).live_len() == old(self).live_len(),
    {
        &mut self.slots[idx as usize]
    }
}

/// No slot is both live and free: the free list holds just the slots that are
/// not live, each once, and together with the live ones they are all there are.
pub proof fn law_free_or_live(a: Arena)
    requires
        a.wf(),
    ensures
        a.free_list().no_duplicates(),
        forall|i: u32| #[trigger]
            a.free_list().contains(i) <==> i < a.slots().len() && !a.live(i),
        a.free_list().len() + a.live_len() == a.slots().len(),
{
    let f = a.free_list();
    Arena::lemma_chain_len(a.slots(), a.free_head(), (a.slots().len() - a.live_len()) as nat);
    assert forall|i: u32| #[trigger] f.contains(i) implies i < a.slots().len() by {
        let k = choose|k: int| 0 <= k < f.len() && f[k] == i;
        assert(f[k] < a.slots().len());
    }
}

/// Handing out a slot: the first of the free list, if there is one, and what
/// is left of the list.
pub open spec fn taken(free: Seq<u32>) -> (Option<u32>, Seq<u32>) {
    if free.len() == 0 {
        (None, free)
    } else {
        (Some(free[0]), free.skip(1))
    }
}

/// The free list after slot `idx` was given back.
pub open spec fn given_back(free: Seq<u32>, idx: u32) -> Seq<u32> {
    seq![idx] + free
}

/// Freed slots are reused last in, first out: a slot given back is the next
/// one handed out, and that leaves the list as it was.
pub proof fn law_lifo_reuse(free: Seq<u32>, idx: u32)
    ensures
        taken(given_back(free, idx)) == (Some(idx), free),
{
    assert(given_back(free, idx).skip(1) =~= free);
}

} // verus!
