//! Price-time priority: one side of a book as the single queue in which an
//! aggressor meets it.

use crate::model::{
    best_level, drop_head, is_best_level, lemma_best_none, lemma_drop_head, lemma_total_empty,
    order_total, other_than, rung, without, Ladder,
};
use crate::snapshot::SnapOrder;
use crate::types::Side;
use vstd::prelude::*;

verus! {

/// The queues of the levels number `k` up to `e` of a side, best price first,
/// one behind the other.
pub open spec fn flat_range(s: Side, l: Ladder, k: int, e: int) -> Seq<SnapOrder>
    decreases e - k,
{
    if k >= e {
        Seq::empty()
    } else {
        l[rung(s, l.len() as int, k)] + flat_range(s, l, k + 1, e)
    }
}

/// A side in price-time priority: best price first, oldest first.
pub open spec fn flat(s: Side, l: Ladder) -> Seq<SnapOrder> {
    flat_range(s, l, 0, l.len() as int)
}

/// A range falls into two.
pub proof fn lemma_range_split(s: Side, l: Ladder, k: int, j: int, e: int)
    requires
        k <= j <= e,
    ensures
        flat_range(s, l, k, e) == flat_range(s, l, k, j) + flat_range(s, l, j, e),
    decreases j - k,
{
    if k < j {
        lemma_range_split(s, l, k + 1, j, e);
        assert(flat_range(s, l, k, e) =~= flat_range(s, l, k, j) + flat_range(s, l, j, e));
    } else {
        assert(flat_range(s, l, k, e) =~= flat_range(s, l, k, j) + flat_range(s, l, j, e));
    }
}

/// A range only depends on its own levels.
pub proof fn lemma_range_frame(s: Side, a: Ladder, b: Ladder, k: int, e: int)
    requires
        a.len() == b.len(),
        0 <= k,
        e <= a.len(),
        forall|j: int|
            k <= j < e ==> (#[trigger] a[rung(s, a.len() as int, j)]) == b[rung(
                s,
                a.len() as int,
                j,
            )],
    ensures
        flat_range(s, a, k, e) == flat_range(s, b, k, e),
    decreases e - k,
{
    if k < e {
        assert(a[rung(s, a.len() as int, k)] == b[rung(s, a.len() as int, k)]);
        lemma_range_frame(s, a, b, k + 1, e);
    }
}

/// Empty levels add nothing.
pub proof fn lemma_range_empty(s: Side, l: Ladder, k: int, e: int)
    requires
        0 <= k,
        e <= l.len(),
        forall|j: int| k <= j < e ==> (#[trigger] l[rung(s, l.len() as int, j)]).len() == 0,
    ensures
        flat_range(s, l, k, e).len() == 0,
    decreases e - k,
{
    if k < e {
        assert(l[rung(s, l.len() as int, k)].len() == 0);
        lemma_range_empty(s, l, k + 1, e);
    }
}

/// A side around one of its levels.
pub proof fn lemma_flat_around(s: Side, l: Ladder, b: int, q: Seq<SnapOrder>)
    requires
        0 <= b < l.len(),
    ensures
        ({
            let n = l.len() as int;
            let k = rung(s, n, b);
            flat(s, l.update(b, q)) == flat_range(s, l, 0, k) + q + flat_range(s, l, k + 1, n)
        }),
        flat(s, l) == flat_range(s, l, 0, rung(s, l.len() as int, b)) + l[b] + flat_range(
            s,
            l,
            rung(s, l.len() as int, b) + 1,
            l.len() as int,
        ),
{
    let n = l.len() as int;
    let k = rung(s, n, b);
    let u = l.update(b, q);
    assert(rung(s, n, k) == b);
    lemma_range_split(s, u, 0, k, n);
    assert forall|j: int| 0 <= j < n && j != k implies (#[trigger] u[rung(s, n, j)]) == l[rung(
        s,
        n,
        j,
    )] by {
        assert(rung(s, n, j) != b);
    }
    lemma_range_frame(s, u, l, 0, k);
    lemma_range_frame(s, u, l, k + 1, n);
    assert(flat(s, u) =~= flat_range(s, l, 0, k) + q + flat_range(s, l, k + 1, n));
    lemma_range_split(s, l, 0, k, n);
    assert(flat(s, l) =~= flat_range(s, l, 0, k) + l[b] + flat_range(s, l, k + 1, n));
}

/// The oldest order of the best level is first.
pub proof fn lemma_flat_head(s: Side, l: Ladder, b: int, x: SnapOrder)
    requires
        is_best_level(s, l, b),
    ensures
        flat(s, l).len() > 0,
        flat(s, l)[0] == l[b][0],
        flat(s, drop_head(l, b)) == flat(s, l).skip(1),
        flat(s, l.update(b, l[b].update(0, x))) == flat(s, l).update(0, x),
{
    let n = l.len() as int;
    let k = rung(s, n, b);
    lemma_flat_around(s, l, b, l[b].skip(1));
    lemma_flat_around(s, l, b, l[b].update(0, x));
    assert forall|j: int| 0 <= j < k implies (#[trigger] l[rung(s, n, j)]).len() == 0 by {}
    lemma_range_empty(s, l, 0, k);
    assert(flat(s, drop_head(l, b)) =~= flat(s, l).skip(1));
    assert(flat(s, l.update(b, l[b].update(0, x))) =~= flat(s, l).update(0, x));
}

/// Without a best level there is nobody to meet.
pub proof fn lemma_flat_none(s: Side, l: Ladder)
    ensures
        best_level(s, l) is None <==> flat(s, l).len() == 0,
        best_level(s, l) matches Some(b) ==> is_best_level(s, l, b),
{
    match best_level(s, l) {
        None => {
            lemma_best_none(s, l);
            lemma_range_empty(s, l, 0, l.len() as int);
        },
        Some(b) => {
            assert(is_best_level(s, l, b));
            lemma_flat_head(s, l, b, l[b][0]);
        },
    }
}

/// Every order of a side is met exactly once.
pub proof fn lemma_flat_len(s: Side, l: Ladder)
    ensures
        flat(s, l).len() == order_total(l),
    decreases order_total(l),
{
    lemma_flat_none(s, l);
    match best_level(s, l) {
        None => {
            lemma_best_none(s, l);
            lemma_total_empty(l);
        },
        Some(b) => {
            lemma_drop_head(s, l, b);
            lemma_flat_head(s, l, b, l[b][0]);
            lemma_flat_len(s, drop_head(l, b));
        },
    }
}

/// Taking an order out of every level is taking it out of the queue.
pub proof fn lemma_flat_without(s: Side, l: Ladder, id: u64, k: int)
    requires
        0 <= k <= l.len(),
    ensures
        flat_range(s, without(l, id), k, l.len() as int) == flat_range(
            s,
            l,
            k,
            l.len() as int,
        ).filter(other_than(id)),
    decreases l.len() - k,
{
    let n = l.len() as int;
    let p = other_than(id);
    reveal(Seq::filter);
    if k < n {
        lemma_flat_without(s, l, id, k + 1);
        let i = rung(s, n, k);
        Seq::filter_distributes_over_add(l[i], flat_range(s, l, k + 1, n), p);
        assert(without(l, id)[i] == l[i].filter(p));
    } else {
        assert(Seq::<SnapOrder>::empty().filter(p) =~= Seq::empty());
    }
}

/// Where the orders of the queue stand.
pub proof fn lemma_flat_member(s: Side, l: Ladder, k: int, e: int, j: int) -> (p: (int, int))
    requires
        0 <= k <= e <= l.len(),
        0 <= j < flat_range(s, l, k, e).len(),
    ensures
        k <= rung(s, l.len() as int, p.0) < e,
        0 <= p.0 < l.len(),
        0 <= p.1 < l[p.0].len(),
        flat_range(s, l, k, e)[j] == l[p.0][p.1],
    decreases e - k,
{
    let i = rung(s, l.len() as int, k);
    if j < l[i].len() {
        (i, j)
    } else {
        lemma_flat_member(s, l, k + 1, e, j - l[i].len())
    }
}

/// Where an order stands in the queue.
pub proof fn lemma_flat_place(s: Side, l: Ladder, i: int, k: int) -> (j: int)
    requires
        0 <= i < l.len(),
        0 <= k < l[i].len(),
    ensures
        0 <= j < flat(s, l).len(),
        flat(s, l)[j] == l[i][k],
{
    lemma_flat_around(s, l, i, l[i]);
    flat_range(s, l, 0, rung(s, l.len() as int, i)).len() + k
}

} // verus!
