//! Canonical state hashing.
//!
//! `state_hash()` hashes what the book MEANS, never where it lives:
//! live orders in canonical order (levels ascending, FIFO head to tail)
//! plus per-level aggregates. Arena indices and the free-list are
//! implementation detail (two deterministic runs may place the same
//! logical book in different physical slots), so they are NEVER hashed.
//!
//! The hasher is FNV-1a over explicit little-endian bytes: no SipHash
//! keys, no per-process seeds, no platform dependence. The reference
//! engine reuses this exact hasher and canonical order, which makes
//! `state_hash` itself differentially testable.

use crate::arena::{succ, NIL};
use crate::book::OrderBook;
use crate::bytes::le;
use crate::model::{queue_qty, BookModel, Ladder};
use crate::snapshot::SnapOrder;
use crate::types::Side;
use vstd::prelude::*;

verus! {

/// Where an FNV-1a stream starts.
pub const FNV_OFFSET: u64 = 0xcbf2_9ce4_8422_2325;

/// What an FNV-1a stream is multiplied by for every byte.
pub const FNV_PRIME: u64 = 0x0000_0100_0000_01b3;

/// FNV-1a over `bytes`, from state `h` on.
pub open spec fn fnv(h: u64, bytes: Seq<u8>) -> u64
    decreases bytes.len(),
{
    if bytes.len() == 0 {
        h
    } else {
        (fnv(h, bytes.drop_last()) ^ (bytes.last() as u64)).wrapping_mul(FNV_PRIME)
    }
}

/// Hashing in two parts is hashing the whole.
pub proof fn law_fnv_concat(h: u64, a: Seq<u8>, b: Seq<u8>)
    ensures
        fnv(h, a + b) == fnv(fnv(h, a), b),
    decreases b.len(),
{
    if b.len() == 0 {
        assert(a + b =~= a);
    } else {
        assert((a + b).drop_last() =~= a + b.drop_last());
        law_fnv_concat(h, a, b.drop_last());
    }
}

/// FNV-1a, 64-bit. Deterministic across runs, machines, and builds.
pub struct Fnv1a(u64);

impl Fnv1a {
    /// The state of the stream.
    pub closed spec fn state(&self) -> u64 {
        self.0
    }

    /// A fresh stream.
    pub fn new() -> (h: Self)
        ensures
            h.state() == FNV_OFFSET,
    {
        Fnv1a(FNV_OFFSET)
    }

    /// Feed bytes.
    pub fn write_bytes(&mut self, bytes: &[u8])
        ensures
            final(self).state() == fnv(old(self).state(), bytes@),
    {
        let ghost h = self.0;
        let mut i: usize = 0;
        proof {
            assert(bytes@.take(0).len() == 0);
        }
        while i < bytes.len()
            invariant
                i <= bytes@.len(),
                self.0 == fnv(h, bytes@.take(i as int)),
            decreases bytes@.len() - i,
        {
            proof {
                let t = bytes@.take(i + 1);
                assert(t.drop_last() =~= bytes@.take(i as int));
            }
            self.0 = (self.0 ^ bytes[i] as u64).wrapping_mul(FNV_PRIME);
            i += 1;
        }
        proof {
            assert(bytes@.take(i as int) =~= bytes@);
        }
    }

    fn write_le(&mut self, v: u128, n: usize)
        ensures
            final(self).state() == fnv(old(self).state(), le(v as nat, n as nat)),
        decreases n,
    {
        if n > 0 {
            let ghost h = self.0;
            let low = (v % 256) as u8;
            self.0 = (self.0 ^ low as u64).wrapping_mul(FNV_PRIME);
            proof {
                let one = seq![low];
                assert(one.drop_last() =~= Seq::empty());
                assert(fnv(h, one.drop_last()) == h);
                assert(self.0 == fnv(h, one));
                law_fnv_concat(h, one, le(v as nat / 256, (n - 1) as nat));
            }
            self.write_le(v / 256, n - 1);
        }
    }

    /// Feed one byte.
    pub fn write_u8(&mut self, v: u8)
        ensures
            final(self).state() == fnv(old(self).state(), seq![v]),
    {
        proof {
            assert(le(v as nat, 1) =~= seq![v]) by {
                reveal_with_fuel(le, 2);
            }
        }
        self.write_le(v as u128, 1);
    }

    /// Feed four bytes.
    pub fn write_u32(&mut self, v: u32)
        ensures
            final(self).state() == fnv(old(self).state(), le(v as nat, 4)),
    {
        self.write_le(v as u128, 4);
    }

    /// Feed eight bytes.
    pub fn write_u64(&mut self, v: u64)
        ensures
            final(self).state() == fnv(old(self).state(), le(v as nat, 8)),
    {
        self.write_le(v as u128, 8);
    }

    /// Feed sixteen bytes.
    pub fn write_u128(&mut self, v: u128)
        ensures
            final(self).state() == fnv(old(self).state(), le(v as nat, 16)),
    {
        self.write_le(v, 16);
    }

    /// Feed eight bytes, two's complement.
    pub fn write_i64(&mut self, v: i64)
        ensures
            final(self).state() == fnv(old(self).state(), le((v as u64) as nat, 8)),
    {
        self.write_le((v as u64) as u128, 8);
    }

    /// The hash of what was fed so far.
    pub fn finish(&self) -> (r: u64)
        ensures
            r == self.state(),
    {
        self.0
    }
}

impl Default for Fnv1a {
    fn default() -> (h: Self)
        ensures
            h.state() == FNV_OFFSET,
    {
        Self::new()
    }
}

/// Lets types that derive `Hash` feed an FNV stream, so that whole output logs
/// can be fingerprinted.
impl core::hash::Hasher for Fnv1a {
    fn finish(&self) -> (r: u64)
        ensures
            r == self.state(),
    {
        self.0
    }

    fn write(&mut self, bytes: &[u8])
        ensures
            final(self).state() == fnv(old(self).state(), bytes@),
    {
        self.write_bytes(bytes);
    }
}

/// What the hash reads of an order.
pub open spec fn order_bytes(o: SnapOrder) -> Seq<u8> {
    le(o.order_id as nat, 8) + le((o.price as u64) as nat, 8) + le(o.remaining as nat, 8) + le(
        o.trader as nat,
        4,
    )
}

/// What the hash reads of a queue, oldest order first.
pub open spec fn queue_bytes(q: Seq<SnapOrder>) -> Seq<u8>
    decreases q.len(),
{
    if q.len() == 0 {
        Seq::empty()
    } else {
        queue_bytes(q.drop_last()) + order_bytes(q.last())
    }
}

/// What the hash reads of level `i`: nothing where no order rests.
pub open spec fn level_bytes(l: Ladder, i: int) -> Seq<u8> {
    if l[i].len() == 0 {
        Seq::empty()
    } else {
        le(i as nat, 4) + le(queue_qty(l[i]), 16) + le(l[i].len(), 4) + queue_bytes(l[i])
    }
}

/// What the hash reads of the lowest `n` levels, lowest price first.
pub open spec fn ladder_bytes(l: Ladder, n: int) -> Seq<u8>
    decreases n,
{
    if n <= 0 {
        Seq::empty()
    } else {
        ladder_bytes(l, n - 1) + level_bytes(l, n - 1)
    }
}

/// What the hash reads of one side.
pub open spec fn side_bytes(m: BookModel, s: Side) -> Seq<u8> {
    seq![s.to_u8()] + ladder_bytes(m.side(s), m.side(s).len() as int)
}

/// The hash of what a book means: bids then asks; levels ascending; orders
/// oldest first.
pub open spec fn book_hash(m: BookModel) -> u64 {
    fnv(FNV_OFFSET, side_bytes(m, Side::Bid) + side_bytes(m, Side::Ask))
}

/// Feed one order.
pub(crate) fn feed_order(h: &mut Fnv1a, order_id: u64, price: i64, remaining: u64, trader: u32)
    ensures
        final(h).state() == fnv(
            old(h).state(),
            le(order_id as nat, 8) + le((price as u64) as nat, 8) + le(remaining as nat, 8) + le(
                trader as nat,
                4,
            ),
        ),
{
    let ghost s = h.state();
    let ghost a = le(order_id as nat, 8);
    let ghost b = le((price as u64) as nat, 8);
    let ghost c = le(remaining as nat, 8);
    let ghost d = le(trader as nat, 4);
    h.write_u64(order_id);
    h.write_i64(price);
    h.write_u64(remaining);
    h.write_u32(trader);
    proof {
        law_fnv_concat(s, a, b);
        law_fnv_concat(s, a + b, c);
        law_fnv_concat(s, a + b + c, d);
    }
}

/// Feed the number, quantity and length of a level.
pub(crate) fn feed_level(h: &mut Fnv1a, idx: u32, qty: u128, count: u32)
    ensures
        final(h).state() == fnv(
            old(h).state(),
            le(idx as nat, 4) + le(qty as nat, 16) + le(count as nat, 4),
        ),
{
    let ghost s = h.state();
    let ghost a = le(idx as nat, 4);
    let ghost b = le(qty as nat, 16);
    let ghost c = le(count as nat, 4);
    h.write_u32(idx);
    h.write_u128(qty);
    h.write_u32(count);
    proof {
        law_fnv_concat(s, a, b);
        law_fnv_concat(s, a + b, c);
    }
}

impl OrderBook {
    /// Hash the full semantic book state. Canonical order: bids then
    /// asks; levels ascending by index; orders FIFO head to tail.
    pub fn state_hash(&self) -> (r: u64)
        requires
            self.wf(),
        ensures
            r == book_hash(self@),
    {
        let mut h = Fnv1a::new();
        self.hash_side(Side::Bid, &mut h);
        self.hash_side(Side::Ask, &mut h);
        proof {
            law_fnv_concat(
                FNV_OFFSET,
                side_bytes(self@, Side::Bid),
                side_bytes(self@, Side::Ask),
            );
        }
        h.finish()
    }

    fn hash_side(&self, side: Side, h: &mut Fnv1a)
        requires
            self.wf(),
        ensures
            final(h).state() == fnv(old(h).state(), side_bytes(self@, side)),
    {
        let ghost start = h.state();
        let ghost first = seq![side.to_u8()];
        let ghost l = self@.side(side);
        h.write_u8(side.to_u8());
        let bs = self.side(side);
        let n = bs.num_levels();
        let mut i: u32 = 0;
        proof {
            assert(first + ladder_bytes(l, 0) =~= first);
        }
        while i < n
            invariant
                self.wf(),
                *bs == self.side_of(side),
                l == self@.side(side),
                n == self.cfg.num_levels == l.len(),
                i <= n,
                h.state() == fnv(start, first + ladder_bytes(l, i as int)),
            decreases n - i,
        {
            proof {
                self.lemma_level_len(side, i as int);
                law_fnv_concat(start, first + ladder_bytes(l, i as int), level_bytes(l, i as int));
                assert(first + ladder_bytes(l, i + 1) =~= first + ladder_bytes(l, i as int)
                    + level_bytes(l, i as int));
            }
            if bs.bit(i) {
                self.hash_level(side, i, h);
            } else {
                proof {
                    assert(first + ladder_bytes(l, i as int) + level_bytes(l, i as int) =~= first
                        + ladder_bytes(l, i as int));
                }
            }
            i += 1;
        }
    }

    fn hash_level(&self, side: Side, i: u32, h: &mut Fnv1a)
        requires
            self.wf(),
            i < self.cfg.num_levels,
            self@.side(side)[i as int].len() > 0,
        ensures
            final(h).state() == fnv(old(h).state(), level_bytes(self@.side(side), i as int)),
    {
        let ghost start = h.state();
        let ghost q = self@.side(side)[i as int];
        let ghost c = self.chains(side)[i as int];
        let ghost head = le(i as nat, 4) + le(queue_qty(q), 16) + le(q.len(), 4);
        proof {
            self.lemma_level_len(side, i as int);
            assert(head + queue_bytes(q.take(0)) =~= head);
        }
        let lvl = self.side(side).level(i);
        feed_level(h, i, lvl.total_qty, lvl.order_count);
        let mut cur = lvl.head;
        let ghost mut k: int = 0;
        while cur != NIL
            invariant
                self.wf(),
                i < self.cfg.num_levels,
                c == self.chains(side)[i as int],
                q == self@.side(side)[i as int],
                c.len() == q.len(),
                0 <= k <= c.len(),
                cur == succ(c, k - 1),
                h.state() == fnv(start, head + queue_bytes(q.take(k))),
            ensures
                k == c.len(),
            decreases c.len() - k,
        {
            proof {
                if k < c.len() {
                    self.lemma_linked(side, i as int, k);
                    assert(self.arena.slots()[c[k] as int].next == succ(c, k));
                    let t = q.take(k + 1);
                    assert(t.drop_last() =~= q.take(k));
                    assert(head + queue_bytes(t) =~= head + queue_bytes(q.take(k)) + order_bytes(
                        q[k],
                    ));
                    law_fnv_concat(start, head + queue_bytes(q.take(k)), order_bytes(q[k]));
                }
            }
            let s = self.arena.slot(cur);
            feed_order(h, s.order_id, s.price, s.remaining, s.trader);
            cur = s.next;
            proof {
                if k == c.len() {
                    assert(false);
                }
                k = k + 1;
                if k < c.len() {
                    self.lemma_linked(side, i as int, k);
                }
            }
        }
        proof {
            assert(q.take(k) =~= q);
        }
    }
}

} // verus!
