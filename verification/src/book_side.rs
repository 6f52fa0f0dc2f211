//! One side of the book: a flat array of price levels plus an occupancy
//! bitmap and a cached best-level index.
//!
//! - Level lookup is `(price - min_price) / tick_size`: O(1), no hashing,
//!   no tree, no pointer chasing.
//! - Best-price lookup is the cached `best` index; it is only rescanned
//!   when the best level EMPTIES, and the rescan is a `leading_zeros` /
//!   `trailing_zeros` over the bitmap, usually a single word.
//! - Each level is an intrusive doubly-linked FIFO through the arena, so
//!   price-time priority falls out for free: the array gives price order,
//!   the FIFO gives time order. Nothing is ever sorted.

use crate::arena::{
    chain, lemma_chain_unique, lemma_distinct_bound, links, pred, succ, Arena, OrderSlot, NIL,
};
use crate::types::Side;
use vstd::prelude::*;
use vstd::std_specs::bits::{axiom_u64_leading_zeros, axiom_u64_trailing_zeros};

verus! {

/// One price level.
#[derive(Copy, Clone, Debug)]
pub struct Level {
    /// Arena index of the OLDEST order: fills start here.
    pub head: u32,
    /// Arena index of the NEWEST order: resting appends here.
    pub tail: u32,
    /// Sum of `remaining` over the FIFO. u128 so no sum of u64 quantities
    /// can overflow it. Maintained incrementally; used by the FOK
    /// pre-check.
    pub total_qty: u128,
    pub order_count: u32,
}

impl Level {
    /// A level without orders.
    fn vacant() -> (l: Level)
        ensures
            l.head == NIL,
            l.tail == NIL,
            l.total_qty == 0,
            l.order_count == 0,
    {
        Level { head: NIL, tail: NIL, total_qty: 0, order_count: 0 }
    }
}

/// Bit `c` of a word.
pub open spec fn word_bit(w: u64, c: int) -> bool {
    w & (1u64 << (c as u64)) != 0
}

/// Bit `i` of a bitmap of 64-bit words.
pub open spec fn bit_at(words: Seq<u64>, i: int) -> bool {
    word_bit(words[i / 64], i % 64)
}

proof fn lemma_set_bit(w: u64, b: u64, c: u64)
    requires
        b < 64,
        c < 64,
    ensures
        word_bit(w | (1u64 << b), c as int) <==> b == c || word_bit(w, c as int),
        word_bit(w & !(1u64 << b), c as int) <==> b != c && word_bit(w, c as int),
{
    assert(b < 64 && c < 64 ==> ((w | (1u64 << b)) & (1u64 << c) != 0 <==> b == c || w & (1u64 << c)
        != 0)) by (bit_vector);
    assert(b < 64 && c < 64 ==> ((w & !(1u64 << b)) & (1u64 << c) != 0 <==> b != c && w & (1u64
        << c) != 0)) by (bit_vector);
}

proof fn lemma_mask_below(w: u64, b: u64, c: u64)
    requires
        b < 64,
        c < 64,
    ensures
        (1u64 << b) >= 1,
        word_bit(w & (((1u64 << b) - 1) as u64), c as int) <==> c < b && word_bit(w, c as int),
{
    assert(b < 64 ==> (1u64 << b) >= 1) by (bit_vector);
    assert(b < 64 && c < 64 ==> ((w & (((1u64 << b) - 1) as u64)) & (1u64 << c) != 0 <==> c < b && w
        & (1u64 << c) != 0)) by (bit_vector);
}

proof fn lemma_mask_above(w: u64, b: u64, c: u64)
    requires
        b < 63,
        c < 64,
    ensures
        word_bit(w & (0xffff_ffff_ffff_ffffu64 << ((b + 1) as u64)), c as int) <==> c > b
            && word_bit(w, c as int),
{
    assert(b < 63 && c < 64 ==> ((w & (0xffff_ffff_ffff_ffffu64 << ((b + 1) as u64))) & (1u64 << c)
        != 0 <==> c > b && w & (1u64 << c) != 0)) by (bit_vector);
}

proof fn lemma_shifted_bit(w: u64, c: u64)
    requires
        c < 64,
    ensures
        word_bit(w, c as int) <==> (w >> c) & 1u64 != 0,
        word_bit(w, c as int) <==> (w >> c) & 1u64 == 1,
        w == 0 ==> !word_bit(w, c as int),
{
    assert(c < 64 ==> (w & (1u64 << c) != 0 <==> (w >> c) & 1u64 != 0)) by (bit_vector);
    assert(c < 64 ==> (w & (1u64 << c) != 0 <==> (w >> c) & 1u64 == 1)) by (bit_vector);
    assert(w == 0 ==> w & (1u64 << c) == 0) by (bit_vector);
}

/// The position of the highest set bit of a word.
fn highest_bit(w: u64) -> (p: u32)
    requires
        w != 0,
    ensures
        p < 64,
        word_bit(w, p as int),
        forall|c: int| p < c < 64 ==> !#[trigger] word_bit(w, c),
{
    proof {
        axiom_u64_leading_zeros(w);
        let p = 63 - vstd::std_specs::bits::u64_leading_zeros(w);
        lemma_shifted_bit(w, p as u64);
        assert forall|c: int| p < c < 64 implies !#[trigger] word_bit(w, c) by {
            lemma_shifted_bit(w, c as u64);
            assert((w >> (c as u64)) & 1u64 == 0u64);
        }
    }
    63 - w.leading_zeros()
}

/// The position of the lowest set bit of a word.
fn lowest_bit(w: u64) -> (p: u32)
    requires
        w != 0,
    ensures
        p < 64,
        word_bit(w, p as int),
        forall|c: int| 0 <= c < p ==> !#[trigger] word_bit(w, c),
{
    proof {
        axiom_u64_trailing_zeros(w);
        let p = vstd::std_specs::bits::u64_trailing_zeros(w);
        lemma_shifted_bit(w, p as u64);
        assert forall|c: int| 0 <= c < p implies !#[trigger] word_bit(w, c) by {
            lemma_shifted_bit(w, c as u64);
            assert((w >> (c as u64)) & 1u64 == 0u64);
        }
    }
    w.trailing_zeros()
}

/// The remaining quantity of the orders on a list.
pub open spec fn queued(slots: Seq<OrderSlot>, s: Seq<u32>) -> nat
    decreases s.len(),
{
    if s.len() == 0 {
        0
    } else {
        queued(slots, s.drop_last()) + slots[s.last() as int].remaining as nat
    }
}

/// No list of `u64` quantities outgrows its length times the largest one.
pub proof fn lemma_queued_bound(slots: Seq<OrderSlot>, s: Seq<u32>)
    ensures
        queued(slots, s) <= s.len() * 0xffff_ffff_ffff_ffff,
    decreases s.len(),
{
    if s.len() > 0 {
        lemma_queued_bound(slots, s.drop_last());
    }
}

/// The sum only depends on the quantities on the list.
pub proof fn lemma_queued_frame(a: Seq<OrderSlot>, b: Seq<OrderSlot>, s: Seq<u32>)
    requires
        forall|i: int|
            0 <= i < s.len() ==> a[s[i] as int].remaining == (#[trigger] b[s[i] as int]).remaining,
    ensures
        queued(a, s) == queued(b, s),
    decreases s.len(),
{
    if s.len() > 0 {
        let t = s.drop_last();
        assert forall|i: int| 0 <= i < t.len() implies a[t[i] as int].remaining == (
        #[trigger] b[t[i] as int]).remaining by {
            assert(t[i] == s[i]);
            assert(a[s[i] as int].remaining == b[s[i] as int].remaining);
        }
        lemma_queued_frame(a, b, t);
        assert(a[s[s.len() - 1] as int].remaining == b[s[s.len() - 1] as int].remaining);
    }
}

/// Taking one order off the list takes its quantity off the sum.
pub proof fn lemma_queued_remove(slots: Seq<OrderSlot>, s: Seq<u32>, k: int)
    requires
        0 <= k < s.len(),
    ensures
        queued(slots, s) == queued(slots, s.remove(k)) + slots[s[k] as int].remaining,
    decreases s.len(),
{
    if k == s.len() - 1 {
        assert(s.remove(k) =~= s.drop_last());
    } else {
        let t = s.drop_last();
        lemma_queued_remove(slots, t, k);
        assert(s.remove(k).drop_last() =~= t.remove(k));
        assert(s.remove(k).last() == s.last());
    }
}

/// `s` is the FIFO of level number `l`: linked both ways, oldest first, with
/// the level's own account of its length and quantity.
pub open spec fn level_ok(slots: Seq<OrderSlot>, lvl: Level, l: int, s: Seq<u32>) -> bool {
    &&& lvl.order_count == s.len()
    &&& s.no_duplicates()
    &&& links(slots, lvl.head, s)
    &&& lvl.tail == pred(s, s.len() as int)
    &&& forall|i: int|
        0 <= i < s.len() ==> (#[trigger] slots[s[i] as int]).prev == pred(s, i)
            && slots[s[i] as int].level_idx == l
    &&& lvl.total_qty == queued(slots, s)
}

/// A FIFO stays as it is when the slots on it do.
pub proof fn lemma_level_frame(
    a: Seq<OrderSlot>,
    b: Seq<OrderSlot>,
    lvl: Level,
    l: int,
    s: Seq<u32>,
)
    requires
        level_ok(a, lvl, l, s),
        a.len() == b.len(),
        forall|i: int| 0 <= i < s.len() ==> a[s[i] as int] == #[trigger] b[s[i] as int],
    ensures
        level_ok(b, lvl, l, s),
        chain(b, lvl.head, lvl.order_count as nat) == s,
{
    assert forall|i: int| 0 <= i < s.len() implies (#[trigger] b[s[i] as int]).next == succ(s, i)
        && b[s[i] as int].prev == pred(s, i) && b[s[i] as int].level_idx == l by {
        assert(a[s[i] as int] == b[s[i] as int]);
    }
    lemma_queued_frame(a, b, s);
    lemma_chain_unique(b, lvl.head, s);
}

/// Appending a fresh slot to a FIFO.
proof fn lemma_fifo_push(
    a: Seq<OrderSlot>,
    b: Seq<OrderSlot>,
    lvl: Level,
    lvl2: Level,
    l: int,
    s: Seq<u32>,
    idx: u32,
)
    requires
        level_ok(a, lvl, l, s),
        a.len() == b.len() < NIL,
        idx < a.len(),
        !s.contains(idx),
        b[idx as int].next == NIL,
        b[idx as int].prev == lvl.tail,
        b[idx as int].level_idx == l,
        b[idx as int].remaining == a[idx as int].remaining,
        lvl.tail != NIL ==> b[lvl.tail as int] == (OrderSlot { next: idx, ..a[lvl.tail as int] }),
        forall|i: u32|
            i < a.len() && i != idx && i != lvl.tail ==> #[trigger] a[i as int] == b[i as int],
        lvl2.tail == idx,
        lvl2.head == if lvl.head == NIL {
            idx
        } else {
            lvl.head
        },
        lvl2.order_count == lvl.order_count + 1,
        lvl2.total_qty == lvl.total_qty + a[idx as int].remaining,
    ensures
        level_ok(b, lvl2, l, s.push(idx)),
{
    let t = s.push(idx);
    let n = s.len() as int;
    assert forall|i: int| 0 <= i < t.len() implies #[trigger] t[i] < b.len() by {
        if i < n {
            assert(t[i] == s[i]);
            assert(s[i] < a.len());
        }
    }
    assert forall|i: int| 0 <= i < t.len() implies (#[trigger] b[t[i] as int]).next == succ(t, i)
        && b[t[i] as int].prev == pred(t, i) && b[t[i] as int].level_idx == l by {
        if i < n {
            assert(t[i] == s[i]);
            assert(s.contains(s[i]));
            assert(a[s[i] as int].next == succ(s, i));
            assert(a[s[i] as int].prev == pred(s, i));
            if i < n - 1 {
                assert(s[i] != s[n - 1]);
            }
        }
    }
    assert(t.drop_last() =~= s);
    assert forall|i: int| 0 <= i < s.len() implies a[s[i] as int].remaining == (
    #[trigger] b[s[i] as int]).remaining by {
        assert(s.contains(s[i]));
        assert(s[i] < a.len());
    }
    lemma_queued_frame(a, b, s);
    if n > 0 {
        assert(s[0] < a.len());
    }
}

/// Splicing position `k` out of a FIFO.
proof fn lemma_fifo_splice(
    a: Seq<OrderSlot>,
    b: Seq<OrderSlot>,
    lvl: Level,
    lvl2: Level,
    l: int,
    s: Seq<u32>,
    k: int,
)
    requires
        level_ok(a, lvl, l, s),
        a.len() == b.len() < NIL,
        0 <= k < s.len(),
        pred(s, k) != NIL ==> b[pred(s, k) as int] == (OrderSlot {
            next: succ(s, k),
            ..a[pred(s, k) as int]
        }),
        succ(s, k) != NIL ==> b[succ(s, k) as int] == (OrderSlot {
            prev: pred(s, k),
            ..a[succ(s, k) as int]
        }),
        forall|i: u32|
            i < a.len() && i != pred(s, k) && i != succ(s, k) ==> #[trigger] a[i as int]
                == b[i as int],
        lvl2.head == if pred(s, k) == NIL {
            succ(s, k)
        } else {
            lvl.head
        },
        lvl2.tail == if succ(s, k) == NIL {
            pred(s, k)
        } else {
            lvl.tail
        },
        lvl2.order_count == lvl.order_count - 1,
        lvl2.total_qty == lvl.total_qty - a[s[k] as int].remaining,
    ensures
        level_ok(b, lvl2, l, s.remove(k)),
{
    let t = s.remove(k);
    let n = s.len() as int;
    assert forall|i: int| 0 <= i < n implies #[trigger] s[i] < NIL by {
        assert(s[i] < a.len());
    }
    assert(k > 0 <==> pred(s, k) != NIL);
    assert(k + 1 < n <==> succ(s, k) != NIL);
    assert(t.no_duplicates());
    assert forall|i: int| 0 <= i < t.len() implies #[trigger] t[i] < b.len() by {
        assert(t[i] == s[if i < k { i } else { i + 1 }]);
    }
    assert forall|i: int| 0 <= i < t.len() implies (#[trigger] b[t[i] as int]).next == succ(t, i)
        && b[t[i] as int].prev == pred(t, i) && b[t[i] as int].level_idx == l
        && b[t[i] as int].remaining == a[t[i] as int].remaining by {
        let j = if i < k {
            i
        } else {
            i + 1
        };
        assert(t[i] == s[j]);
        assert(s[j] < a.len());
        assert(a[s[j] as int].next == succ(s, j));
        assert(a[s[j] as int].prev == pred(s, j));
        if k > 0 && j != k - 1 {
            assert(s[j] != s[k - 1]);
        }
        if k + 1 < n && j != k + 1 {
            assert(s[j] != s[k + 1]);
        }
        if k > 0 && k + 1 < n {
            assert(s[k - 1] != s[k + 1]);
        }
    }
    lemma_queued_remove(a, s, k);
    lemma_queued_frame(a, b, t);
}

/// `best` is the highest (bids) or lowest (asks) level with orders, or `NIL`
/// when no level has any.
pub open spec fn is_best(side: Side, levels: Seq<Level>, best: u32) -> bool {
    if best == NIL {
        forall|i: int| 0 <= i < levels.len() ==> (#[trigger] levels[i]).order_count == 0
    } else {
        &&& best < levels.len()
        &&& levels[best as int].order_count > 0
        &&& forall|i: int|
            0 <= i < levels.len() && (#[trigger] levels[i]).order_count > 0 ==> match side {
                Side::Bid => i <= best,
                Side::Ask => i >= best,
            }
    }
}

/// One side of the book.
pub struct BookSide {
    /// Flat array of levels. Index = (price - min_price) / tick_size.
    levels: Vec<Level>,
    /// Occupancy bitmap: bit i set <=> levels[i] is non-empty.
    occupied: Vec<u64>,
    /// Cached best level index: highest occupied for bids, lowest for
    /// asks. NIL when the side is empty. THE critical optimization.
    best: u32,
    side: Side,
}

impl BookSide {
    /// The levels, lowest price first.
    pub closed spec fn levels(&self) -> Seq<Level> {
        self.levels@
    }

    /// The words of the occupancy bitmap.
    pub closed spec fn words(&self) -> Seq<u64> {
        self.occupied@
    }

    /// The cached best level.
    pub closed spec fn best_idx(&self) -> u32 {
        self.best
    }

    /// Which side this is.
    pub closed spec fn which(&self) -> Side {
        self.side
    }

    /// The FIFO of a level, as arena indices, oldest first.
    pub open spec fn chain_at(&self, slots: Seq<OrderSlot>, l: int) -> Seq<u32> {
        chain(slots, self.levels()[l].head, self.levels()[l].order_count as nat)
    }

    /// The FIFOs of all levels.
    pub open spec fn chains(&self, slots: Seq<OrderSlot>) -> Seq<Seq<u32>> {
        Seq::new(self.levels().len(), |l: int| self.chain_at(slots, l))
    }

    /// Level `l` and its FIFO agree.
    pub open spec fn level_linked(&self, slots: Seq<OrderSlot>, l: int) -> bool {
        level_ok(slots, self.levels()[l], l, self.chain_at(slots, l))
    }

    /// One bit for every level, and no bit set beyond the last level.
    pub open spec fn shape(&self) -> bool {
        &&& self.levels().len() <= u32::MAX
        &&& self.words().len() == (self.levels().len() + 63) / 64
        &&& forall|i: int|
            self.levels().len() <= i < 64 * self.words().len() ==> !#[trigger] bit_at(
                self.words(),
                i,
            )
    }

    /// The bitmap shows exactly the levels with orders.
    pub open spec fn bitmap_ok(&self) -> bool {
        forall|i: int|
            0 <= i < self.levels().len() ==> (#[trigger] bit_at(self.words(), i) <==> self.levels()[i].order_count
                > 0)
    }

    /// Every level and its FIFO agree.
    pub open spec fn linked(&self, slots: Seq<OrderSlot>) -> bool {
        forall|l: int| 0 <= l < self.levels().len() ==> #[trigger] self.level_linked(slots, l)
    }

    /// The side is consistent with itself and with the arena.
    pub open spec fn wf(&self, slots: Seq<OrderSlot>) -> bool {
        &&& self.shape()
        &&& self.bitmap_ok()
        &&& is_best(self.which(), self.levels(), self.best_idx())
        &&& self.linked(slots)
    }

    /// No FIFO of this side holds slot `idx`.
    pub open spec fn unlinked(&self, slots: Seq<OrderSlot>, idx: u32) -> bool {
        forall|l: int|
            0 <= l < self.levels().len() ==> !(#[trigger] self.chain_at(slots, l)).contains(idx)
    }

    /// A level is determined by one FIFO that fits it.
    pub proof fn lemma_chain_at(&self, slots: Seq<OrderSlot>, l: int, s: Seq<u32>)
        requires
            level_ok(slots, self.levels()[l], l, s),
        ensures
            self.chain_at(slots, l) == s,
            self.level_linked(slots, l),
    {
        lemma_chain_unique(slots, self.levels()[l].head, s);
    }

    /// Relinking one level leaves the FIFOs of the others alone.
    proof fn lemma_relinked(
        &self,
        pre: &BookSide,
        a: Seq<OrderSlot>,
        b: Seq<OrderSlot>,
        l: int,
        t: Seq<u32>,
    )
        requires
            pre.linked(a),
            0 <= l < pre.levels().len(),
            self.levels().len() == pre.levels().len(),
            forall|m: int|
                0 <= m < pre.levels().len() && m != l ==> #[trigger] self.levels()[m]
                    == pre.levels()[m],
            level_ok(b, self.levels()[l], l, t),
            a.len() == b.len(),
            forall|i: u32|
                i < a.len() && #[trigger] a[i as int] != b[i as int] ==> pre.unlinked(a, i)
                    || pre.chain_at(a, l).contains(i),
        ensures
            self.linked(b),
            self.chains(b) == pre.chains(a).update(l, t),
    {
        self.lemma_chain_at(b, l, t);
        assert(pre.level_linked(a, l));
        assert forall|m: int| 0 <= m < self.levels().len() && m != l implies
            #[trigger] self.level_linked(b, m) && self.chain_at(b, m) == pre.chain_at(a, m) by {
            let c = pre.chain_at(a, m);
            assert(pre.level_linked(a, m));
            assert(self.levels()[m] == pre.levels()[m]);
            assert forall|i: int| 0 <= i < c.len() implies a[c[i] as int] == #[trigger] b[c[i] as int] by {
                assert(c[i] < a.len());
                assert(c.contains(c[i]));
                assert(a[c[i] as int].level_idx == m);
                if pre.chain_at(a, l).contains(c[i]) {
                    let s = pre.chain_at(a, l);
                    let j = s.index_of(c[i]);
                    assert(a[s[j] as int].level_idx == l);
                }
            }
            lemma_level_frame(a, b, self.levels()[m], m, c);
        }
        assert forall|m: int| 0 <= m < self.levels().len() implies #[trigger] self.chains(b)[m]
            == pre.chains(a).update(l, t)[m] by {
            if m != l {
                assert(self.level_linked(b, m));
            }
        }
        assert(self.chains(b) =~= pre.chains(a).update(l, t));
    }

    /// Taking `qty` off an order and off its level keeps the side consistent.
    pub proof fn lemma_reduced(
        &self,
        pre: &BookSide,
        a: Seq<OrderSlot>,
        b: Seq<OrderSlot>,
        l: int,
        k: int,
        qty: u64,
    )
        requires
            pre.wf(a),
            0 <= l < pre.levels().len(),
            0 <= k < pre.chain_at(a, l).len(),
            qty <= a[pre.chain_at(a, l)[k] as int].remaining,
            ({
                let i = pre.chain_at(a, l)[k] as int;
                b == a.update(
                    i,
                    OrderSlot { remaining: (a[i].remaining - qty) as u64, ..a[i] },
                )
            }),
            pre.levels()[l].total_qty >= qty,
            self.levels() == pre.levels().update(
                l,
                Level {
                    total_qty: (pre.levels()[l].total_qty - qty) as u128,
                    ..pre.levels()[l]
                },
            ),
            self.words() == pre.words(),
            self.best_idx() == pre.best_idx(),
            self.which() == pre.which(),
        ensures
            self.wf(b),
            self.chains(b) == pre.chains(a),
    {
        let s = pre.chain_at(a, l);
        let t = s.remove(k);
        assert(pre.level_linked(a, l));
        assert forall|i: int| 0 <= i < s.len() implies (#[trigger] b[s[i] as int]).next
            == a[s[i] as int].next && b[s[i] as int].prev == a[s[i] as int].prev
            && b[s[i] as int].level_idx == a[s[i] as int].level_idx && (i != k
            ==> b[s[i] as int].remaining == a[s[i] as int].remaining) && s[i] < a.len() by {
            assert(s[i] < a.len());
            if i != k {
                assert(s[i] != s[k]);
            }
        }
        assert forall|i: int| 0 <= i < t.len() implies a[t[i] as int].remaining == (
        #[trigger] b[t[i] as int]).remaining by {
            assert(t[i] == s[if i < k { i } else { i + 1 }]);
        }
        lemma_queued_frame(a, b, t);
        lemma_queued_remove(a, s, k);
        lemma_queued_remove(b, s, k);
        assert(level_ok(b, self.levels()[l], l, s));
        assert(s.contains(s[k]));
        self.lemma_relinked(pre, a, b, l, s);
        assert(pre.chains(a).update(l, s) =~= pre.chains(a));
        assert forall|i: int| 0 <= i < self.levels().len() implies (
        #[trigger] self.levels()[i]).order_count == pre.levels()[i].order_count by {}
        assert forall|i: int| 0 <= i < self.levels().len() implies (#[trigger] bit_at(
            self.words(),
            i,
        ) <==> self.levels()[i].order_count > 0) by {
            assert(self.levels()[i].order_count == pre.levels()[i].order_count);
        }
    }

    /// A level holds at least the quantity of each of its orders.
    pub proof fn lemma_level_covers(&self, slots: Seq<OrderSlot>, l: int, k: int)
        requires
            self.wf(slots),
            0 <= l < self.levels().len(),
            0 <= k < self.chain_at(slots, l).len(),
        ensures
            self.levels()[l].total_qty >= slots[self.chain_at(slots, l)[k] as int].remaining,
    {
        assert(self.level_linked(slots, l));
        lemma_queued_remove(slots, self.chain_at(slots, l), k);
    }

    /// Writing to slots that are not linked here changes nothing here.
    pub proof fn lemma_frame(&self, a: Seq<OrderSlot>, b: Seq<OrderSlot>)
        requires
            self.wf(a),
            a.len() == b.len(),
            forall|l: int, i: int|
                #![trigger self.chain_at(a, l)[i]]
                0 <= l < self.levels().len() && 0 <= i < self.chain_at(a, l).len() ==> a[self.chain_at(
                    a,
                    l,
                )[i] as int] == b[self.chain_at(a, l)[i] as int],
        ensures
            self.wf(b),
            self.chains(b) == self.chains(a),
            forall|l: int|
                0 <= l < self.levels().len() ==> #[trigger] self.chain_at(b, l) == self.chain_at(a, l),
    {
        assert forall|l: int| 0 <= l < self.levels().len() implies #[trigger] self.chain_at(b, l)
            == self.chain_at(a, l) && self.level_linked(b, l) by {
            assert(self.level_linked(a, l));
            lemma_level_frame(a, b, self.levels()[l], l, self.chain_at(a, l));
        }
        assert forall|l: int| 0 <= l < self.levels().len() implies #[trigger] self.level_linked(
            b,
            l,
        ) by {
            assert(self.chain_at(b, l) == self.chain_at(a, l));
        }
        assert(self.chains(b) =~= self.chains(a));
    }

    /// An empty side.
    pub fn new(side: Side, num_levels: u32) -> (b: Self)
        ensures
            b.which() == side,
            b.levels().len() == num_levels,
            b.best_idx() == NIL,
            forall|slots: Seq<OrderSlot>| #[trigger] b.wf(slots),
            forall|slots: Seq<OrderSlot>|
                #[trigger] b.chains(slots) == Seq::new(
                    num_levels as nat,
                    |l: int| Seq::<u32>::empty(),
                ),
            forall|slots: Seq<OrderSlot>, idx: u32| #[trigger] b.unlinked(slots, idx),
    {
        let n = num_levels as usize;
        let words = n / 64 + if n % 64 != 0 {
            1
        } else {
            0
        };
        let mut levels: Vec<Level> = Vec::with_capacity(n);
        let mut i: usize = 0;
        while i < n
            invariant
                i <= n,
                levels@.len() == i,
                forall|k: int|
                    0 <= k < i ==> (#[trigger] levels@[k]).head == NIL && levels@[k].tail == NIL
                        && levels@[k].total_qty == 0 && levels@[k].order_count == 0,
            decreases n - i,
        {
            levels.push(Level::vacant());
            i += 1;
        }
        let mut occupied: Vec<u64> = Vec::with_capacity(words);
        let mut j: usize = 0;
        while j < words
            invariant
                j <= words,
                occupied@.len() == j,
                forall|k: int| 0 <= k < j ==> #[trigger] occupied@[k] == 0,
            decreases words - j,
        {
            occupied.push(0);
            j += 1;
        }
        let b = BookSide { levels, occupied, best: NIL, side };
        proof {
            assert forall|i: int| 0 <= i < 64 * b.words().len() implies !#[trigger] bit_at(
                b.words(),
                i,
            ) by {
                lemma_shifted_bit(0, (i % 64) as u64);
                assert(b.words()[i / 64] == 0);
            }
            assert forall|slots: Seq<OrderSlot>| #[trigger] b.wf(slots) by {
                assert forall|l: int| 0 <= l < b.levels().len() implies #[trigger] b.level_linked(
                    slots,
                    l,
                ) by {
                    assert(b.levels()[l].head == NIL);
                }
            }
            assert forall|slots: Seq<OrderSlot>| #[trigger] b.chains(slots) == Seq::new(
                num_levels as nat,
                |l: int| Seq::<u32>::empty(),
            ) by {
                assert forall|l: int| 0 <= l < b.levels().len() implies b.chains(slots)[l]
                    == Seq::<u32>::empty() by {
                    assert(b.levels()[l].order_count == 0);
                }
                assert(b.chains(slots) =~= Seq::new(num_levels as nat, |l: int| Seq::<u32>::empty()));
            }
            assert forall|slots: Seq<OrderSlot>, idx: u32| #[trigger] b.unlinked(slots, idx) by {
                assert forall|l: int| 0 <= l < b.levels().len() implies !(#[trigger] b.chain_at(
                    slots,
                    l,
                )).contains(idx) by {
                    assert(b.chain_at(slots, l) == b.chains(slots)[l]);
                }
            }
        }
        b
    }

    /// Which side this is.
    pub fn side(&self) -> (s: Side)
        ensures
            s == self.which(),
    {
        self.side
    }

    /// The cached best level, `NIL` when the side is empty.
    pub fn best(&self) -> (b: u32)
        ensures
            b == self.best_idx(),
    {
        self.best
    }

    /// Read a level.
    pub fn level(&self, idx: u32) -> (l: &Level)
        requires
            idx < self.levels().len(),
        ensures
            *l == self.levels()[idx as int],
    {
        &self.levels[idx as usize]
    }

    /// Write to a level.
    pub fn level_mut(&mut self, idx: u32) -> (l: &mut Level)
        requires
            idx < old(self).levels().len(),
        ensures
            *l == old(self).levels()[idx as int],
            final(self).levels() == old(self).levels().update(idx as int, *final(l)),
            final(self).words() == old(self).words(),
            final(self).best_idx() == old(self).best_idx(),
            final(self).which() == old(self).which(),
    {
        &mut self.levels[idx as usize]
    }

    /// How many levels the side has.
    pub fn num_levels(&self) -> (n: u32)
        requires
            self.levels().len() <= u32::MAX,
        ensures
            n == self.levels().len(),
    {
        self.levels.len() as u32
    }

    fn set_bit(&mut self, idx: u32)
        requires
            idx < 64 * old(self).words().len(),
        ensures
            final(self).levels() == old(self).levels(),
            final(self).best_idx() == old(self).best_idx(),
            final(self).which() == old(self).which(),
            final(self).words().len() == old(self).words().len(),
            forall|i: int|
                0 <= i < 64 * old(self).words().len() ==> (#[trigger] bit_at(final(self).words(), i)
                    <==> i == idx || bit_at(old(self).words(), i)),
    {
        let word = (idx / 64) as usize;
        let ghost before = self.occupied@;
        self.occupied[word] = self.occupied[word] | (1u64 << (idx % 64));
        proof {
            assert forall|i: int| 0 <= i < 64 * before.len() implies (#[trigger] bit_at(
                self.words(),
                i,
            ) <==> i == idx || bit_at(before, i)) by {
                lemma_set_bit(before[i / 64], (idx % 64) as u64, (i % 64) as u64);
            }
        }
    }

    fn clear_bit(&mut self, idx: u32)
        requires
            idx < 64 * old(self).words().len(),
        ensures
            final(self).levels() == old(self).levels(),
            final(self).best_idx() == old(self).best_idx(),
            final(self).which() == old(self).which(),
            final(self).words().len() == old(self).words().len(),
            forall|i: int|
                0 <= i < 64 * old(self).words().len() ==> (#[trigger] bit_at(final(self).words(), i)
                    <==> i != idx && bit_at(old(self).words(), i)),
    {
        let word = (idx / 64) as usize;
        let ghost before = self.occupied@;
        self.occupied[word] = self.occupied[word] & !(1u64 << (idx % 64));
        proof {
            assert forall|i: int| 0 <= i < 64 * before.len() implies (#[trigger] bit_at(
                self.words(),
                i,
            ) <==> i != idx && bit_at(before, i)) by {
                lemma_set_bit(before[i / 64], (idx % 64) as u64, (i % 64) as u64);
            }
        }
    }

    /// Whether the bitmap shows a level as occupied.
    pub fn bit(&self, idx: u32) -> (r: bool)
        requires
            idx < 64 * self.words().len(),
        ensures
            r == bit_at(self.words(), idx as int),
    {
        self.occupied[(idx / 64) as usize] & (1u64 << (idx % 64)) != 0
    }

    /// Highest occupied level strictly below `from`, or NIL: where the best
    /// bid goes when its level empties.
    pub fn next_occupied_below(&self, from: u32) -> (r: u32)
        requires
            from < 64 * self.words().len(),
        ensures
            r == NIL ==> forall|j: int| 0 <= j < from ==> !#[trigger] bit_at(self.words(), j),
            r != NIL ==> r < from && bit_at(self.words(), r as int) && forall|j: int|
                r < j < from ==> !#[trigger] bit_at(self.words(), j),
    {
        let mut word = (from / 64) as usize;
        let bit = from % 64;
        // Mask off bits at/above `from` in the starting word, scan down.
        proof {
            lemma_mask_below(self.occupied@[word as int], bit as u64, 0);
        }
        let mut w = self.occupied[word] & ((1u64 << bit) - 1);
        proof {
            assert forall|c: int| 0 <= c < 64 implies (#[trigger] word_bit(w, c) <==> 64 * word + c
                < from && bit_at(self.words(), 64 * word + c)) by {
                lemma_mask_below(self.occupied@[word as int], bit as u64, c as u64);
                assert((64 * word + c) / 64 == word && (64 * word + c) % 64 == c);
            }
        }
        loop
            invariant
                word < self.occupied@.len(),
                64 * word <= from,
                from < 64 * self.words().len(),
                forall|c: int|
                    0 <= c < 64 ==> (#[trigger] word_bit(w, c) <==> 64 * word + c < from && bit_at(
                        self.words(),
                        64 * word + c,
                    )),
                forall|j: int| 64 * (word + 1) <= j < from ==> !#[trigger] bit_at(self.words(), j),
            decreases word,
        {
            if w != 0 {
                let p = highest_bit(w);
                proof {
                    assert forall|j: int| 64 * word + p < j < from implies !#[trigger] bit_at(
                        self.words(),
                        j,
                    ) by {
                        if j < 64 * (word + 1) {
                            assert(!word_bit(w, j - 64 * word));
                        }
                    }
                }
                return (word as u32) * 64 + p;
            }
            proof {
                assert forall|j: int| 64 * word <= j < from implies !#[trigger] bit_at(
                    self.words(),
                    j,
                ) by {
                    if j < 64 * (word + 1) {
                        lemma_shifted_bit(w, (j - 64 * word) as u64);
                        assert(!word_bit(w, j - 64 * word));
                    }
                }
            }
            if word == 0 {
                return NIL;
            }
            word -= 1;
            w = self.occupied[word];
            proof {
                assert forall|c: int| 0 <= c < 64 implies (#[trigger] word_bit(w, c) <==> 64 * word
                    + c < from && bit_at(self.words(), 64 * word + c)) by {
                    assert((64 * word + c) / 64 == word && (64 * word + c) % 64 == c);
                }
            }
        }
    }

    /// Lowest occupied level strictly above `from`, or NIL: where the best
    /// ask goes when its level empties.
    pub fn next_occupied_above(&self, from: u32) -> (r: u32)
        requires
            self.shape(),
            from < 64 * self.words().len(),
        ensures
            r == NIL ==> forall|j: int|
                from < j < 64 * self.words().len() ==> !#[trigger] bit_at(self.words(), j),
            r != NIL ==> from < r < self.levels().len() && bit_at(self.words(), r as int)
                && forall|j: int| from < j < r ==> !#[trigger] bit_at(self.words(), j),
    {
        let mut word = (from / 64) as usize;
        let bit = from % 64;
        // Mask off bits at/below `from` in the starting word, scan up.
        // Careful at bit 63: `<< 64` would overflow.
        let mut w = if bit == 63 {
            0
        } else {
            self.occupied[word] & (0xffff_ffff_ffff_ffffu64 << (bit + 1))
        };
        proof {
            assert forall|c: int| 0 <= c < 64 implies (#[trigger] word_bit(w, c) <==> 64 * word + c
                > from && bit_at(self.words(), 64 * word + c)) by {
                assert((64 * word + c) / 64 == word && (64 * word + c) % 64 == c);
                if bit == 63 {
                    lemma_shifted_bit(w, c as u64);
                } else {
                    lemma_mask_above(self.occupied@[word as int], bit as u64, c as u64);
                }
            }
        }
        loop
            invariant
                self.shape(),
                word < self.occupied@.len(),
                from < 64 * (word + 1),
                forall|c: int|
                    0 <= c < 64 ==> (#[trigger] word_bit(w, c) <==> 64 * word + c > from && bit_at(
                        self.words(),
                        64 * word + c,
                    )),
                forall|j: int| from < j < 64 * word ==> !#[trigger] bit_at(self.words(), j),
            decreases self.occupied@.len() - word,
        {
            if w != 0 {
                let p = lowest_bit(w);
                proof {
                    assert(word_bit(w, p as int));
                    assert(bit_at(self.words(), 64 * word + p));
                    assert(64 * word + p < self.levels().len());
                    assert forall|j: int| from < j < 64 * word + p implies !#[trigger] bit_at(
                        self.words(),
                        j,
                    ) by {
                        if j >= 64 * word {
                            assert(!word_bit(w, j - 64 * word));
                        }
                    }
                }
                return (word as u32) * 64 + p;
            }
            proof {
                assert forall|j: int| from < j < 64 * (word + 1) implies !#[trigger] bit_at(
                    self.words(),
                    j,
                ) by {
                    if j >= 64 * word {
                        lemma_shifted_bit(w, (j - 64 * word) as u64);
                        assert(!word_bit(w, j - 64 * word));
                    }
                }
            }
            word += 1;
            if word >= self.occupied.len() {
                return NIL;
            }
            w = self.occupied[word];
            proof {
                assert forall|c: int| 0 <= c < 64 implies (#[trigger] word_bit(w, c) <==> 64 * word
                    + c > from && bit_at(self.words(), 64 * word + c)) by {
                    assert((64 * word + c) / 64 == word && (64 * word + c) % 64 == c);
                }
            }
        }
    }

    /// Next occupied level in the direction of WORSE prices for this side
    /// (used to walk the book best-first without mutating anything).
    pub fn next_occupied_worse(&self, from: u32) -> (r: u32)
        requires
            self.shape(),
            from < self.levels().len(),
        ensures
            match self.which() {
                Side::Bid => {
                    &&& r == NIL ==> forall|j: int|
                        0 <= j < from ==> !#[trigger] bit_at(self.words(), j)
                    &&& r != NIL ==> r < from && bit_at(self.words(), r as int) && forall|j: int|
                        r < j < from ==> !#[trigger] bit_at(self.words(), j)
                },
                Side::Ask => {
                    &&& r == NIL ==> forall|j: int|
                        from < j < self.levels().len() ==> !#[trigger] bit_at(self.words(), j)
                    &&& r != NIL ==> from < r < self.levels().len() && bit_at(
                        self.words(),
                        r as int,
                    ) && forall|j: int| from < j < r ==> !#[trigger] bit_at(self.words(), j)
                },
            },
    {
        match self.side {
            Side::Bid => self.next_occupied_below(from),
            Side::Ask => self.next_occupied_above(from),
        }
    }

    /// Append order `idx` to the tail of level `level_idx`'s FIFO and
    /// account for its quantity. Updates the bitmap and cached best.
    pub fn link_tail(&mut self, arena: &mut Arena, level_idx: u32, idx: u32)
        requires
            old(self).wf(old(arena).slots()),
            old(arena).slots().len() < NIL,
            level_idx < old(self).levels().len(),
            idx < old(arena).slots().len(),
            old(self).unlinked(old(arena).slots(), idx),
        ensures
            final(self).wf(final(arena).slots()),
            final(self).which() == old(self).which(),
            final(self).levels().len() == old(self).levels().len(),
            final(self).chains(final(arena).slots()) == old(self).chains(
                old(arena).slots(),
            ).update(
                level_idx as int,
                old(self).chain_at(old(arena).slots(), level_idx as int).push(idx),
            ),
            final(arena).free_head() == old(arena).free_head(),
            final(arena).live_len() == old(arena).live_len(),
            final(arena).slots().len() == old(arena).slots().len(),
            forall|i: int|
                0 <= i < old(arena).slots().len() ==> (
                #[trigger] final(arena).slots()[i]).same_order(old(arena).slots()[i]),
            forall|i: u32|
                i < old(arena).slots().len() && i != idx && !old(self).chain_at(
                    old(arena).slots(),
                    level_idx as int,
                ).contains(i) ==> #[trigger] final(arena).slots()[i as int] == old(arena).slots()[i as int],
    {
        let ghost a = arena.slots();
        let ghost l = level_idx as int;
        let ghost s = self.chain_at(a, l);
        let ghost t = s.push(idx);
        proof {
            assert(self.level_linked(a, l));
            assert(!self.chain_at(a, l).contains(idx));
            assert forall|i: int| 0 <= i < t.len() implies #[trigger] t[i] < a.len() by {
                if i < s.len() {
                    assert(s[i] < a.len());
                }
            }
            lemma_distinct_bound(t, a.len());
            lemma_queued_bound(a, s);
            if s.len() > 0 {
                assert(s.contains(s[s.len() - 1]));
                assert(s[s.len() - 1] < a.len());
            }
        }
        let old_tail = self.levels[level_idx as usize].tail;
        {
            let slot = arena.slot_mut(idx);
            slot.prev = old_tail;
            slot.next = NIL;
            slot.level_idx = level_idx;
        }
        let remaining = arena.slot(idx).remaining;
        if old_tail != NIL {
            arena.slot_mut(old_tail).next = idx;
        }
        let ghost b = arena.slots();
        let lvl = &mut self.levels[level_idx as usize];
        lvl.tail = idx;
        if lvl.head == NIL {
            lvl.head = idx;
        }
        lvl.order_count += 1;
        lvl.total_qty += remaining as u128;
        let opened = lvl.order_count == 1;

        proof {
            lemma_fifo_push(a, b, old(self).levels()[l], self.levels()[l], l, s, idx);
        }
        if opened {
            // Level went empty -> occupied: it may be the new best.
            self.set_bit(level_idx);
            let better = match self.side {
                Side::Bid => self.best == NIL || level_idx > self.best,
                Side::Ask => self.best == NIL || level_idx < self.best,
            };
            if better {
                self.best = level_idx;
            }
        }
        proof {
            assert forall|i: u32| i < a.len() && #[trigger] a[i as int] != b[i as int] implies old(self).unlinked(a, i) || s.contains(i) by {}
            self.lemma_relinked(old(self), a, b, l, t);
            assert forall|i: int| 0 <= i < self.levels().len() implies (#[trigger] bit_at(
                self.words(),
                i,
            ) <==> self.levels()[i].order_count > 0) by {
                assert(bit_at(old(self).words(), i) <==> old(self).levels()[i].order_count > 0);
            }
            assert forall|i: int|
                self.levels().len() <= i < 64 * self.words().len() implies !#[trigger] bit_at(
                self.words(),
                i,
            ) by {
                assert(!bit_at(old(self).words(), i));
            }
            assert forall|i: int| 0 <= i < self.levels().len() && i != l implies
                #[trigger] self.levels()[i] == old(self).levels()[i] by {}
            assert(self.levels()[l].order_count > 0);
            assert(is_best(self.which(), self.levels(), self.best_idx()));
        }
    }

    /// Splice order `idx` out of its level's FIFO and de-account its
    /// remaining quantity. If the level empties: clear the bitmap bit and,
    /// if it was the best level, rescan the cached best.
    ///
    /// Does NOT free the arena slot or touch the order index: the book
    /// owns that sequencing.
    pub fn unlink(&mut self, arena: &mut Arena, idx: u32)
        requires
            old(self).wf(old(arena).slots()),
            old(arena).slots().len() < NIL,
            idx < old(arena).slots().len(),
            old(arena).slots()[idx as int].level_idx < old(self).levels().len(),
            old(self).chain_at(
                old(arena).slots(),
                old(arena).slots()[idx as int].level_idx as int,
            ).contains(idx),
        ensures
            final(self).wf(final(arena).slots()),
            final(self).which() == old(self).which(),
            final(self).levels().len() == old(self).levels().len(),
            ({
                let l = old(arena).slots()[idx as int].level_idx as int;
                let s = old(self).chain_at(old(arena).slots(), l);
                &&& final(self).chains(final(arena).slots()) == old(self).chains(
                    old(arena).slots(),
                ).update(l, s.remove(s.index_of(idx)))
                &&& forall|i: u32|
                    i < old(arena).slots().len() && (i == idx || !s.contains(i)) ==> #[trigger] final(arena).slots()[i as int] == old(arena).slots()[i as int]
            }),
            final(arena).free_head() == old(arena).free_head(),
            final(arena).live_len() == old(arena).live_len(),
            final(arena).slots().len() == old(arena).slots().len(),
            forall|i: int|
                0 <= i < old(arena).slots().len() ==> (
                #[trigger] final(arena).slots()[i]).same_order(old(arena).slots()[i])
                    && final(arena).slots()[i].level_idx == old(arena).slots()[i].level_idx,
    {
        let ghost a = arena.slots();
        let ghost l = a[idx as int].level_idx as int;
        let ghost s = self.chain_at(a, l);
        let ghost k = s.index_of(idx);
        let ghost t = s.remove(k);
        proof {
            assert(self.level_linked(a, l));
            assert(0 <= k < s.len() && s[k] == idx);
            assert(a[s[k] as int].next == succ(s, k));
            assert(a[s[k] as int].prev == pred(s, k));
            lemma_queued_remove(a, s, k);
            assert forall|i: int| 0 <= i < s.len() implies s.contains(#[trigger] s[i]) && s[i]
                < a.len() by {}
        }
        let slot = *arena.slot(idx);
        let prev = slot.prev;
        let next = slot.next;
        let level_idx = slot.level_idx;
        let remaining = slot.remaining;

        if prev != NIL {
            arena.slot_mut(prev).next = next;
        } else {
            self.levels[level_idx as usize].head = next;
        }
        if next != NIL {
            arena.slot_mut(next).prev = prev;
        } else {
            self.levels[level_idx as usize].tail = prev;
        }
        let ghost b = arena.slots();

        let lvl = &mut self.levels[level_idx as usize];
        lvl.order_count -= 1;
        lvl.total_qty -= remaining as u128;
        let emptied = lvl.order_count == 0;

        proof {
            lemma_fifo_splice(a, b, old(self).levels()[l], self.levels()[l], l, s, k);
        }
        if emptied {
            self.clear_bit(level_idx);
            proof {
                assert forall|i: int|
                    self.levels().len() <= i < 64 * self.words().len() implies !#[trigger] bit_at(
                    self.words(),
                    i,
                ) by {
                    assert(!bit_at(old(self).words(), i));
                }
            }
            if self.best == level_idx {
                self.best = match self.side {
                    Side::Bid => self.next_occupied_below(level_idx),
                    Side::Ask => self.next_occupied_above(level_idx),
                };
            }
        }
        proof {
            assert forall|i: u32| i < a.len() && #[trigger] a[i as int] != b[i as int] implies old(self).unlinked(a, i) || s.contains(i) by {}
            self.lemma_relinked(old(self), a, b, l, t);
            assert forall|i: int| 0 <= i < self.levels().len() implies (#[trigger] bit_at(
                self.words(),
                i,
            ) <==> self.levels()[i].order_count > 0) by {
                assert(bit_at(old(self).words(), i) <==> old(self).levels()[i].order_count > 0);
            }
            assert forall|i: int|
                self.levels().len() <= i < 64 * self.words().len() implies !#[trigger] bit_at(
                self.words(),
                i,
            ) by {
                assert(!bit_at(old(self).words(), i));
            }
            assert forall|i: int| 0 <= i < self.levels().len() && i != l implies
                #[trigger] self.levels()[i] == old(self).levels()[i] by {}
            assert forall|i: int| 0 <= i < self.levels().len() && (
            #[trigger] self.levels()[i]).order_count > 0 implies bit_at(self.words(), i) by {}
            assert(is_best(self.which(), self.levels(), self.best_idx()));
        }
    }

    /// True best according to a full bitmap scan.
    pub fn scan_true_best(&self) -> (r: u32)
        requires
            self.shape(),
        ensures
            r == NIL ==> forall|i: int|
                0 <= i < self.levels().len() ==> !#[trigger] bit_at(self.words(), i),
            r != NIL ==> r < self.levels().len() && bit_at(self.words(), r as int) && forall|i: int|
                0 <= i < self.levels().len() && #[trigger] bit_at(self.words(), i) ==> match self.which() {
                    Side::Bid => i <= r,
                    Side::Ask => i >= r,
                },
    {
        let n = self.num_levels();
        if n == 0 {
            return NIL;
        }
        match self.side {
            Side::Bid => {
                if self.bit(n - 1) {
                    return n - 1;
                }
                self.next_occupied_below(n - 1)
            },
            Side::Ask => {
                if self.bit(0) {
                    return 0;
                }
                self.next_occupied_above(0)
            },
        }
    }
}

} // verus!
