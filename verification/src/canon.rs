//! The canonical bytes of a book tell its orders: no two sides with different
//! orders are read alike by the hash.

use crate::bytes::{law_le_round_trip, le, lemma_le_len, lemma_pow256};
use crate::hash::{book_hash, fnv, ladder_bytes, level_bytes, order_bytes, queue_bytes};
use crate::model::{queue_qty, BookModel, Ladder};
use crate::snapshot::SnapOrder;
use crate::types::Side;
use vstd::prelude::*;

verus! {

/// FNV-1a, one byte at a time: the byte is mixed into the state, and the state
/// multiplied.
pub proof fn law_fnv_byte(h: u64, bytes: Seq<u8>, b: u8)
    ensures
        fnv(h, Seq::empty()) == h,
        fnv(h, bytes.push(b)) == (fnv(h, bytes) ^ (b as u64)).wrapping_mul(0x0000_0100_0000_01b3),
{
    assert(bytes.push(b).drop_last() =~= bytes);
}

/// What a hash is of: the bids behind a zero, the asks behind a one.
pub proof fn law_hash_reads_both_sides(m: BookModel)
    ensures
        book_hash(m) == fnv(
            0xcbf2_9ce4_8422_2325,
            (seq![0u8] + ladder_bytes(m.bids, m.bids.len() as int)) + (seq![1u8] + ladder_bytes(
                m.asks,
                m.asks.len() as int,
            )),
        ),
{
}

/// Two orders are one as far as trading goes: the same id, price, trader and
/// quantity.
pub open spec fn same_order(a: SnapOrder, b: SnapOrder) -> bool {
    &&& a.order_id == b.order_id
    &&& a.price == b.price
    &&& a.remaining == b.remaining
    &&& a.trader == b.trader
}

/// Two queues hold the same orders in the same order.
pub open spec fn same_queue(a: Seq<SnapOrder>, b: Seq<SnapOrder>) -> bool {
    &&& a.len() == b.len()
    &&& forall|k: int| 0 <= k < a.len() ==> same_order(#[trigger] a[k], b[k])
}

/// A number can be read off the front of what starts with it.
proof fn lemma_front(v: nat, w: nat, n: nat, x: Seq<u8>, y: Seq<u8>)
    requires
        v < crate::bytes::pow256(n),
        w < crate::bytes::pow256(n),
        le(v, n) + x == le(w, n) + y,
    ensures
        v == w,
        x == y,
{
    broadcast use lemma_le_len;

    law_le_round_trip(v, n);
    law_le_round_trip(w, n);
    let a = le(v, n) + x;
    let b = le(w, n) + y;
    assert(a.take(n as int) =~= le(v, n));
    assert(b.take(n as int) =~= le(w, n));
    assert(a.skip(n as int) =~= x);
    assert(b.skip(n as int) =~= y);
}

/// The bytes of an order tell it.
proof fn lemma_order_told(a: SnapOrder, b: SnapOrder)
    requires
        order_bytes(a) == order_bytes(b),
    ensures
        same_order(a, b),
{
    lemma_pow256();
    let (p, q) = (a.price as u64, b.price as u64);
    let none = Seq::<u8>::empty();
    let a4 = le(a.trader as nat, 4);
    let b4 = le(b.trader as nat, 4);
    let a3 = le(a.remaining as nat, 8);
    let b3 = le(b.remaining as nat, 8);
    let a2 = le(p as nat, 8);
    let b2 = le(q as nat, 8);
    let a1 = le(a.order_id as nat, 8);
    let b1 = le(b.order_id as nat, 8);
    assert(order_bytes(a) =~= a1 + (a2 + (a3 + (a4 + none))));
    assert(order_bytes(b) =~= b1 + (b2 + (b3 + (b4 + none))));
    lemma_front(
        a.order_id as nat,
        b.order_id as nat,
        8,
        a2 + (a3 + (a4 + none)),
        b2 + (b3 + (b4 + none)),
    );
    lemma_front(p as nat, q as nat, 8, a3 + (a4 + none), b3 + (b4 + none));
    lemma_front(a.remaining as nat, b.remaining as nat, 8, a4 + none, b4 + none);
    lemma_front(a.trader as nat, b.trader as nat, 4, none, none);
    crate::codec::lemma_price_bits(a.price);
    crate::codec::lemma_price_bits(b.price);
}

proof fn lemma_order_len(o: SnapOrder)
    ensures
        order_bytes(o).len() == 28,
{
    broadcast use lemma_le_len;

}

proof fn lemma_queue_len(q: Seq<SnapOrder>)
    ensures
        queue_bytes(q).len() == 28 * q.len(),
    decreases q.len(),
{
    if q.len() > 0 {
        lemma_queue_len(q.drop_last());
        lemma_order_len(q.last());
    }
}

/// The bytes of a queue of known length tell it.
proof fn lemma_queue_told(a: Seq<SnapOrder>, b: Seq<SnapOrder>)
    requires
        a.len() == b.len(),
        queue_bytes(a) == queue_bytes(b),
    ensures
        same_queue(a, b),
    decreases a.len(),
{
    if a.len() > 0 {
        let (c, d) = (a.drop_last(), b.drop_last());
        lemma_queue_len(c);
        lemma_queue_len(d);
        lemma_order_len(a.last());
        lemma_order_len(b.last());
        let n = queue_bytes(c).len() as int;
        assert(queue_bytes(a).take(n) =~= queue_bytes(c));
        assert(queue_bytes(b).take(n) =~= queue_bytes(d));
        assert(queue_bytes(a).skip(n) =~= order_bytes(a.last()));
        assert(queue_bytes(b).skip(n) =~= order_bytes(b.last()));
        lemma_queue_told(c, d);
        lemma_order_told(a.last(), b.last());
        assert forall|k: int| 0 <= k < a.len() implies same_order(#[trigger] a[k], b[k]) by {
            if k < c.len() {
                assert(same_order(c[k], d[k]));
            }
        }
    }
}

/// The bytes of the levels from `k` on.
spec fn bytes_from(l: Ladder, k: int) -> Seq<u8>
    decreases l.len() - k,
{
    if k < 0 || k >= l.len() {
        Seq::empty()
    } else {
        level_bytes(l, k) + bytes_from(l, k + 1)
    }
}

proof fn lemma_bytes_split(l: Ladder, k: int)
    requires
        0 <= k <= l.len(),
    ensures
        ladder_bytes(l, l.len() as int) == ladder_bytes(l, k) + bytes_from(l, k),
    decreases l.len() - k,
{
    if k < l.len() {
        lemma_bytes_split(l, k + 1);
        assert(ladder_bytes(l, k) + (level_bytes(l, k) + bytes_from(l, k + 1)) =~= (ladder_bytes(
            l,
            k,
        ) + level_bytes(l, k)) + bytes_from(l, k + 1));
    } else {
        assert(ladder_bytes(l, k) + bytes_from(l, k) =~= ladder_bytes(l, k));
    }
}

/// The levels and queues of a ladder can be counted.
spec fn countable(l: Ladder) -> bool {
    &&& l.len() <= u32::MAX
    &&& forall|i: int| 0 <= i < l.len() ==> (#[trigger] l[i]).len() <= u32::MAX
}

/// What the levels from `k` on start with is the number of one of them.
proof fn lemma_first_number(l: Ladder, k: int) -> (j: int)
    requires
        countable(l),
        0 <= k <= l.len(),
        bytes_from(l, k).len() > 0,
    ensures
        k <= j < l.len(),
        bytes_from(l, k).len() >= 4,
        bytes_from(l, k).take(4) == le(j as nat, 4),
    decreases l.len() - k,
{
    broadcast use lemma_le_len;

    if l[k].len() == 0 {
        assert(bytes_from(l, k) =~= bytes_from(l, k + 1));
        lemma_first_number(l, k + 1)
    } else {
        assert(bytes_from(l, k).take(4) =~= le(k as nat, 4));
        k
    }
}

/// The bytes of the levels from `k` on tell them.
proof fn lemma_levels_told(a: Ladder, b: Ladder, k: int)
    requires
        countable(a),
        countable(b),
        a.len() == b.len(),
        0 <= k <= a.len(),
        bytes_from(a, k) == bytes_from(b, k),
    ensures
        forall|i: int| k <= i < a.len() ==> same_queue(#[trigger] a[i], b[i]),
    decreases a.len() - k,
{
    broadcast use lemma_le_len;

    if k < a.len() {
        lemma_pow256();
        let x = bytes_from(a, k);
        let y = bytes_from(b, k);
        if a[k].len() == 0 && b[k].len() == 0 {
            assert(x =~= bytes_from(a, k + 1));
            assert(y =~= bytes_from(b, k + 1));
            lemma_levels_told(a, b, k + 1);
        } else if a[k].len() == 0 {
            assert(x =~= bytes_from(a, k + 1));
            assert(y.take(4) =~= le(k as nat, 4));
            let j = lemma_first_number(a, k + 1);
            law_le_round_trip(j as nat, 4);
            law_le_round_trip(k as nat, 4);
        } else if b[k].len() == 0 {
            assert(y =~= bytes_from(b, k + 1));
            assert(x.take(4) =~= le(k as nat, 4));
            let j = lemma_first_number(b, k + 1);
            law_le_round_trip(j as nat, 4);
            law_le_round_trip(k as nat, 4);
        } else {
            let (p, q) = (a[k], b[k]);
            let pr = queue_bytes(p) + bytes_from(a, k + 1);
            let qr = queue_bytes(q) + bytes_from(b, k + 1);
            lemma_qty_fits(p);
            lemma_qty_fits(q);
            let pc = le(p.len(), 4) + pr;
            let qc = le(q.len(), 4) + qr;
            let pq = le(queue_qty(p), 16) + pc;
            let qq = le(queue_qty(q), 16) + qc;
            assert(x =~= le(k as nat, 4) + pq);
            assert(y =~= le(k as nat, 4) + qq);
            lemma_front(k as nat, k as nat, 4, pq, qq);
            lemma_front(queue_qty(p), queue_qty(q), 16, pc, qc);
            lemma_front(p.len(), q.len(), 4, pr, qr);
            lemma_queue_len(p);
            lemma_queue_len(q);
            let n = queue_bytes(p).len() as int;
            assert(pr.take(n) =~= queue_bytes(p));
            assert(qr.take(n) =~= queue_bytes(q));
            assert(pr.skip(n) =~= bytes_from(a, k + 1));
            assert(qr.skip(n) =~= bytes_from(b, k + 1));
            lemma_queue_told(p, q);
            lemma_levels_told(a, b, k + 1);
        }
    }
}

/// The quantity of a queue that can be counted fits 16 bytes.
proof fn lemma_qty_fits(q: Seq<SnapOrder>)
    requires
        q.len() <= u32::MAX,
    ensures
        queue_qty(q) < 0x1_0000_0000_0000_0000_0000_0000_0000_0000,
{
    lemma_qty_bound(q);
    let n = q.len() as int;
    assert(n * 0xffff_ffff_ffff_ffff <= 0xffff_ffff * 0xffff_ffff_ffff_ffff) by (nonlinear_arith)
        requires
            0 <= n <= 0xffff_ffff,
    ;
}

proof fn lemma_qty_bound(q: Seq<SnapOrder>)
    ensures
        queue_qty(q) <= q.len() * 0xffff_ffff_ffff_ffff,
    decreases q.len(),
{
    if q.len() > 0 {
        lemma_qty_bound(q.drop_last());
    }
}

/// Nothing that trades goes unread: where the hash reads the same bytes of a
/// side of two books, every level of the one holds the same orders as that of
/// the other, in the same order.
pub proof fn law_bytes_tell_the_side(m: BookModel, n: BookModel, s: Side)
    requires
        m.wf(),
        n.wf(),
        m.cfg == n.cfg,
        ladder_bytes(m.side(s), m.side(s).len() as int) == ladder_bytes(
            n.side(s),
            n.side(s).len() as int,
        ),
    ensures
        forall|i: int|
            0 <= i < m.side(s).len() ==> same_queue(#[trigger] m.side(s)[i], n.side(s)[i]),
{
    let (a, b) = (m.side(s), n.side(s));
    lemma_bytes_split(a, 0);
    lemma_bytes_split(b, 0);
    let none = Seq::<u8>::empty();
    assert(none + bytes_from(a, 0) =~= bytes_from(a, 0));
    assert(none + bytes_from(b, 0) =~= bytes_from(b, 0));
    lemma_countable(m, s);
    lemma_countable(n, s);
    lemma_levels_told(a, b, 0);
}

proof fn lemma_countable(m: BookModel, s: Side)
    requires
        m.wf(),
    ensures
        countable(m.side(s)),
{
    assert forall|i: int| 0 <= i < m.side(s).len() implies (#[trigger] m.side(s)[i]).len()
        <= u32::MAX by {
        crate::panel::lemma_level_len(m.side(s), i);
    }
}

} // verus!
