//! What the live view shows, told by what is on the book: the depth ladder, its
//! bars, and the window of latencies.

use crate::config::BookConfig;
use crate::display::{bar_cells, drawn, most, tail, tick_samples, LadderRow, MAX_SAMPLES};
use crate::model::{order_total, queue_qty, rows, rung, BookModel, Ladder};
use crate::snapshot::SnapOrder;
use crate::types::{Price, Side};
use vstd::arithmetic::div_mod::lemma_fundamental_div_mod;
use vstd::prelude::*;

verus! {

/// The quantity of a queue is the sum of what its orders want.
pub proof fn law_queue_quantity(q: Seq<SnapOrder>, o: SnapOrder)
    ensures
        queue_qty(Seq::empty()) == 0,
        queue_qty(q.push(o)) == queue_qty(q) + o.remaining,
{
    assert(q.push(o).drop_last() =~= q);
}

/// A row shows a level: its price, the quantity and the number of its orders.
pub open spec fn shows(cfg: BookConfig, l: Ladder, row: (Price, u128, u32), i: int) -> bool {
    &&& 0 <= i < l.len()
    &&& l[i].len() > 0
    &&& row.0.0 == cfg.min_price + i * cfg.tick_size
    &&& row.1 == queue_qty(l[i])
    &&& row.2 == l[i].len()
}

/// A row shows some level.
pub open spec fn shows_some(cfg: BookConfig, l: Ladder, row: (Price, u128, u32)) -> bool {
    exists|i: int| shows(cfg, l, row, i)
}

/// Some row shows level `i`.
pub open spec fn shown(
    cfg: BookConfig,
    l: Ladder,
    rows: Seq<(Price, u128, u32)>,
    i: int,
) -> bool {
    exists|j: int| 0 <= j < rows.len() && shows(cfg, l, #[trigger] rows[j], i)
}

/// Quantities and counts of the ladder can be shown.
spec fn showable(cfg: BookConfig, l: Ladder) -> bool {
    forall|i: int|
        0 <= i < l.len() && (#[trigger] l[i]).len() > 0 ==> {
            &&& l[i].len() <= u32::MAX
            &&& i64::MIN <= cfg.price_at(i) <= i64::MAX
        }
}

proof fn lemma_queue_small(q: Seq<SnapOrder>)
    ensures
        queue_qty(q) <= q.len() * 0xffff_ffff_ffff_ffff,
    decreases q.len(),
{
    if q.len() > 0 {
        lemma_queue_small(q.drop_last());
    }
}

/// Which level a row shows, as a number from the best price on.
proof fn lemma_row_shows(cfg: BookConfig, s: Side, l: Ladder, k: int, j: int) -> (q: int)
    requires
        showable(cfg, l),
        0 <= k,
        0 <= j < rows(cfg, s, l, k).len(),
    ensures
        k <= q < l.len(),
        shows(cfg, l, rows(cfg, s, l, k)[j], rung(s, l.len() as int, q)),
        j == 0 ==> forall|p: int|
            k <= p < q ==> (#[trigger] l[rung(s, l.len() as int, p)]).len() == 0,
    decreases l.len() - k,
{
    let i = rung(s, l.len() as int, k);
    let rest = rows(cfg, s, l, k + 1);
    if l[i].len() > 0 {
        if j == 0 {
            lemma_queue_small(l[i]);
            let n = l[i].len() as int;
            assert(n * 0xffff_ffff_ffff_ffff <= 0xffff_ffff * 0xffff_ffff_ffff_ffff)
                by (nonlinear_arith)
                requires
                    0 <= n <= 0xffff_ffff,
            ;
            k
        } else {
            assert(rows(cfg, s, l, k)[j] == rest[j - 1]);
            lemma_row_shows(cfg, s, l, k + 1, j - 1)
        }
    } else {
        assert(rows(cfg, s, l, k) =~= rest);
        lemma_row_shows(cfg, s, l, k + 1, j)
    }
}

/// Rows come in the order of the levels they show.
proof fn lemma_rows_ordered(cfg: BookConfig, s: Side, l: Ladder, k: int, a: int, b: int) -> (r: (
    int,
    int,
))
    requires
        showable(cfg, l),
        0 <= k,
        0 <= a < b < rows(cfg, s, l, k).len(),
    ensures
        k <= r.0 < r.1 < l.len(),
        shows(cfg, l, rows(cfg, s, l, k)[a], rung(s, l.len() as int, r.0)),
        shows(cfg, l, rows(cfg, s, l, k)[b], rung(s, l.len() as int, r.1)),
    decreases l.len() - k,
{
    let i = rung(s, l.len() as int, k);
    let rest = rows(cfg, s, l, k + 1);
    if l[i].len() > 0 {
        assert(rows(cfg, s, l, k)[b] == rest[b - 1]);
        if a == 0 {
            let first = lemma_row_shows(cfg, s, l, k, 0);
            let q = lemma_row_shows(cfg, s, l, k + 1, b - 1);
            assert(first == k) by {
                if k < first {
                    assert(l[rung(s, l.len() as int, k)].len() == 0);
                }
            }
            (k, q)
        } else {
            assert(rows(cfg, s, l, k)[a] == rest[a - 1]);
            lemma_rows_ordered(cfg, s, l, k + 1, a - 1, b - 1)
        }
    } else {
        assert(rows(cfg, s, l, k) =~= rest);
        lemma_rows_ordered(cfg, s, l, k + 1, a, b)
    }
}

/// No occupied level is left out.
proof fn lemma_rows_complete(cfg: BookConfig, s: Side, l: Ladder, k: int, q: int) -> (j: int)
    requires
        showable(cfg, l),
        0 <= k <= q < l.len(),
        l[rung(s, l.len() as int, q)].len() > 0,
    ensures
        0 <= j < rows(cfg, s, l, k).len(),
        shows(cfg, l, rows(cfg, s, l, k)[j], rung(s, l.len() as int, q)),
    decreases l.len() - k,
{
    let i = rung(s, l.len() as int, k);
    let rest = rows(cfg, s, l, k + 1);
    if k == q {
        let first = lemma_row_shows(cfg, s, l, k, 0);
        assert(first == k) by {
            if k < first {
                assert(l[rung(s, l.len() as int, k)].len() == 0);
            }
        }
        0
    } else {
        let j = lemma_rows_complete(cfg, s, l, k + 1, q);
        if l[i].len() > 0 {
            assert(rows(cfg, s, l, k)[j + 1] == rest[j]);
            j + 1
        } else {
            assert(rows(cfg, s, l, k) =~= rest);
            j
        }
    }
}

/// The depth ladder tells the side as it is: every row shows an occupied level,
/// no occupied level is left out, and better prices come first: falling for
/// bids, rising for asks.
pub proof fn law_depth_tells_the_side(m: BookModel, s: Side)
    requires
        m.wf(),
    ensures
        ({
            let r = rows(m.cfg, s, m.side(s), 0);
            &&& forall|j: int|
                0 <= j < r.len() ==> shows_some(m.cfg, m.side(s), #[trigger] r[j])
            &&& forall|i: int|
                0 <= i < m.side(s).len() && (#[trigger] m.side(s)[i]).len() > 0 ==> shown(
                    m.cfg,
                    m.side(s),
                    r,
                    i,
                )
            &&& forall|a: int, b: int|
                0 <= a < b < r.len() ==> match s {
                    Side::Bid => (#[trigger] r[a]).0.0 > (#[trigger] r[b]).0.0,
                    Side::Ask => r[a].0.0 < r[b].0.0,
                }
        }),
{
    let l = m.side(s);
    let n = l.len() as int;
    let r = rows(m.cfg, s, l, 0);
    assert forall|i: int| 0 <= i < l.len() && (#[trigger] l[i]).len() > 0 implies {
        &&& l[i].len() <= u32::MAX
        &&& i64::MIN <= m.cfg.price_at(i) <= i64::MAX
    } by {
        assert(m.at(s, i, 0) && m.order(s, i, 0) == l[i][0]);
        lemma_level_len(l, i);
    }
    assert forall|j: int| 0 <= j < r.len() implies shows_some(m.cfg, l, #[trigger] r[j]) by {
        let q = lemma_row_shows(m.cfg, s, l, 0, j);
        assert(shows(m.cfg, l, r[j], rung(s, n, q)));
    }
    assert forall|i: int| 0 <= i < l.len() && (#[trigger] l[i]).len() > 0 implies shown(
        m.cfg,
        l,
        r,
        i,
    ) by {
        let q = rung(s, n, i);
        assert(rung(s, n, q) == i);
        let j = lemma_rows_complete(m.cfg, s, l, 0, q);
        assert(shows(m.cfg, l, r[j], i));
    }
    assert forall|a: int, b: int| 0 <= a < b < r.len() implies match s {
        Side::Bid => (#[trigger] r[a]).0.0 > (#[trigger] r[b]).0.0,
        Side::Ask => r[a].0.0 < r[b].0.0,
    } by {
        let (x, y) = lemma_rows_ordered(m.cfg, s, l, 0, a, b);
        m.cfg.law_grid_monotone(rung(s, n, x), rung(s, n, y));
        m.cfg.law_grid_monotone(rung(s, n, y), rung(s, n, x));
    }
}

/// A level holds no more orders than its side.
pub(crate) proof fn lemma_level_len(l: Ladder, i: int)
    requires
        0 <= i < l.len(),
    ensures
        l[i].len() <= order_total(l),
    decreases l.len(),
{
    if i < l.len() - 1 {
        assert(l.drop_last()[i] == l[i]);
        lemma_level_len(l.drop_last(), i);
    }
}

/// The largest quantity is that of a row, or one; and no row has a larger one.
pub proof fn law_most(depth: Seq<(Price, u128, u32)>)
    ensures
        most(depth) >= 1,
        forall|j: int| 0 <= j < depth.len() ==> (#[trigger] depth[j]).1 <= most(depth),
        most(depth) == 1 || exists|j: int|
            0 <= j < depth.len() && (#[trigger] depth[j]).1 == most(depth),
    decreases depth.len(),
{
    if depth.len() > 0 {
        let d = depth.drop_last();
        law_most(d);
        assert forall|j: int| 0 <= j < depth.len() implies (#[trigger] depth[j]).1 <= most(
            depth,
        ) by {
            if j < d.len() {
                assert(d[j] == depth[j]);
            }
        }
        if most(depth) == depth.last().1 {
            assert(depth[depth.len() - 1].1 == most(depth));
        } else if most(d) != 1 {
            let j = choose|j: int| 0 <= j < d.len() && (#[trigger] d[j]).1 == most(d);
            assert(depth[j].1 == most(depth));
        }
    }
}

/// Every row is drawn, with its price, quantity and count; and its bar is to all
/// cells what its quantity is to the largest, rounded down: the largest takes
/// them all, and none takes more. Of the width of the area 24 cells are text.
pub proof fn law_bars_in_proportion(depth: Seq<(Price, u128, u32)>, width: u16)
    ensures
        ({
            let cells = bar_cells(width);
            let r = drawn(depth, cells);
            &&& cells == if width <= 24 {
                0int
            } else {
                width - 24
            }
            &&& r.len() == depth.len()
            &&& forall|j: int|
                0 <= j < r.len() ==> {
                    let row: LadderRow = #[trigger] r[j];
                    &&& row.price == depth[j].0
                    &&& row.qty == depth[j].1
                    &&& row.count == depth[j].2
                    &&& row.bar <= cells
                    &&& row.bar * most(depth) <= depth[j].1 * cells
                    &&& depth[j].1 * cells < (row.bar + 1) * most(depth)
                    &&& depth[j].1 == most(depth) ==> row.bar == cells
                }
        }),
{
    let cells = bar_cells(width);
    let r = drawn(depth, cells);
    let full = most(depth) as int;
    law_most(depth);
    assert forall|j: int| 0 <= j < r.len() implies {
        let row: LadderRow = #[trigger] r[j];
        &&& row.price == depth[j].0
        &&& row.qty == depth[j].1
        &&& row.count == depth[j].2
        &&& row.bar <= cells
        &&& row.bar * most(depth) <= depth[j].1 * cells
        &&& depth[j].1 * cells < (row.bar + 1) * most(depth)
        &&& depth[j].1 == most(depth) ==> row.bar == cells
    } by {
        let x = depth[j].1 as int;
        let c = cells as int;
        let p = x * c;
        let b = p / full;
        assert(depth[j].1 <= most(depth));
        lemma_fundamental_div_mod(p, full);
        assert(p <= full * c) by (nonlinear_arith)
            requires
                p == x * c,
                x <= full,
                0 <= c,
        ;
        assert(0 <= p) by (nonlinear_arith)
            requires
                p == x * c,
                0 <= x,
                0 <= c,
        ;
        assert(0 <= b <= c) by (nonlinear_arith)
            requires
                b == p / full,
                0 <= p <= full * c,
                full >= 1,
        ;
        assert(full * b == b * full) by (nonlinear_arith);
        assert((b + 1) * full == b * full + full) by (nonlinear_arith);
        if x == full {
            assert(b == c) by (nonlinear_arith)
                requires
                    b == p / full,
                    p == x * c,
                    x == full,
                    full >= 1,
            ;
        }
        assert(r[j].bar == b);
    }
}

/// A tick adds its time per event to the window, once for each event but 32
/// times at most; one without events adds nothing. The window keeps the latest
/// 50,000 samples, oldest first.
pub proof fn law_window_keeps_the_latest(
    was: Seq<u64>,
    elapsed_ns: u64,
    events: u64,
    now: Seq<u64>,
)
    requires
        was.len() <= 50_000,
        now == tail(was + tick_samples(elapsed_ns, events), MAX_SAMPLES as int),
    ensures
        ({
            let added: int = if events < 32 {
                events as int
            } else {
                32
            };
            &&& now.len() == if was.len() + added <= 50_000 {
                was.len() + added
            } else {
                50_000
            }
            &&& forall|i: int|
                0 <= i < added ==> #[trigger] now[now.len() - 1 - i] == elapsed_ns as int
                    / events as int
            &&& forall|i: int|
                0 <= i < now.len() - added ==> #[trigger] now[now.len() - 1 - added - i]
                    == was[was.len() - 1 - i]
        }),
{
}

} // verus!
