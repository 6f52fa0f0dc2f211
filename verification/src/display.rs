//! What the live view computes before it draws: the bars of the depth ladder,
//! the last trades, and the rolling window of latencies.

use crate::book::OrderBook;
use crate::buffer::clip;
use crate::config::BookConfig;
use crate::model::{queue_qty, rows, rung, Ladder};
use crate::snapshot::SnapOrder;
use crate::types::{Price, Side};
use std::collections::VecDeque;
use vstd::prelude::*;

verus! {

/// The cells of a ladder row that hold text, not bar.
pub const TEXT_CELLS: u16 = 24;

/// How many latencies the window holds.
pub const MAX_SAMPLES: usize = 50_000;

/// The most samples that one tick adds to the window.
pub const SAMPLES_PER_TICK: u64 = 32;

/// One row of the drawn ladder.
#[derive(Copy, Clone, PartialEq, Eq, Debug, Structural)]
pub struct LadderRow {
    pub price: Price,
    pub qty: u128,
    pub count: u32,
    /// The cells that the bar takes.
    pub bar: u16,
}

/// The cells left for bars in an area of `width` cells.
#[verifier::allow_in_spec]
pub fn bar_cells(width: u16) -> u16
    returns
        (if width < TEXT_CELLS {
            0u16
        } else {
            (width - TEXT_CELLS) as u16
        }),
{
    if width < TEXT_CELLS {
        0
    } else {
        width - TEXT_CELLS
    }
}

/// The largest quantity of a depth ladder, at least one: what a bar of full
/// length stands for.
pub open spec fn most(depth: Seq<(Price, u128, u32)>) -> u128
    decreases depth.len(),
{
    if depth.len() == 0 {
        1
    } else if depth.last().1 > most(depth.drop_last()) {
        depth.last().1
    } else {
        most(depth.drop_last())
    }
}

/// The rows that a depth ladder is drawn as: bars in proportion to the
/// quantities, the largest of which takes all of `cells`.
pub open spec fn drawn(depth: Seq<(Price, u128, u32)>, cells: u16) -> Seq<LadderRow> {
    depth.map_values(
        |l: (Price, u128, u32)|
            LadderRow {
                price: l.0,
                qty: l.1,
                count: l.2,
                bar: ((l.1 * cells) / (most(depth) as int)) as u16,
            },
    )
}

/// No quantity exceeds the largest.
proof fn lemma_most(depth: Seq<(Price, u128, u32)>, i: int)
    requires
        0 <= i < depth.len(),
    ensures
        depth[i].1 <= most(depth),
    decreases depth.len(),
{
    if i < depth.len() - 1 {
        assert(depth.drop_last()[i] == depth[i]);
        lemma_most(depth.drop_last(), i);
    }
}

/// The largest quantity of a depth ladder, at least one.
pub fn full_bar(depth: &[(Price, u128, u32)]) -> (r: u128)
    ensures
        r == most(depth@),
        r >= 1,
{
    let mut max: u128 = 1;
    let mut i: usize = 0;
    while i < depth.len()
        invariant
            i <= depth@.len(),
            max == most(depth@.take(i as int)),
            max >= 1,
        decreases depth@.len() - i,
    {
        proof {
            assert(depth@.take(i + 1).drop_last() =~= depth@.take(i as int));
        }
        if depth[i].1 > max {
            max = depth[i].1;
        }
        i += 1;
    }
    proof {
        assert(depth@.take(i as int) =~= depth@);
    }
    max
}

/// The length of the bar of `qty` lots, where `full` lots take `cells` cells.
pub fn bar_len(qty: u128, full: u128, cells: u16) -> (r: u16)
    requires
        full >= 1,
        qty <= full,
        qty * cells <= u128::MAX,
    ensures
        r == (qty * cells) / (full as int),
        r <= cells,
{
    proof {
        let p = qty * cells;
        assert(p <= full * cells) by (nonlinear_arith)
            requires
                p == qty * cells,
                qty <= full,
                cells >= 0,
        ;
        assert(p / (full as int) <= cells) by (nonlinear_arith)
            requires
                p <= full * cells,
                full >= 1,
                p >= 0,
        ;
        assert(0 <= p / (full as int)) by (nonlinear_arith)
            requires
                full >= 1,
                p >= 0,
        ;
    }
    (qty * cells as u128 / full) as u16
}

/// A queue holds no more than its orders can.
proof fn lemma_queue_bounded(q: Seq<SnapOrder>)
    ensures
        queue_qty(q) <= q.len() * 0xffff_ffff_ffff_ffff,
    decreases q.len(),
{
    if q.len() > 0 {
        lemma_queue_bounded(q.drop_last());
    }
}

/// The quantities of a ladder leave room to be scaled.
proof fn lemma_rows_small(cfg: BookConfig, s: Side, l: Ladder, k: int)
    requires
        forall|i: int| 0 <= i < l.len() ==> (#[trigger] l[i]).len() <= u32::MAX,
    ensures
        forall|j: int|
            0 <= j < rows(cfg, s, l, k).len() ==> (#[trigger] rows(cfg, s, l, k)[j]).1
                <= 0xffff_ffff * 0xffff_ffff_ffff_ffff,
    decreases l.len() - k,
{
    if 0 <= k < l.len() {
        let i = rung(s, l.len() as int, k);
        let rest = rows(cfg, s, l, k + 1);
        let all = rows(cfg, s, l, k);
        lemma_rows_small(cfg, s, l, k + 1);
        lemma_queue_bounded(l[i]);
        let n = l[i].len() as int;
        assert(n * 0xffff_ffff_ffff_ffff <= 0xffff_ffff * 0xffff_ffff_ffff_ffff) by (nonlinear_arith)
            requires
                0 <= n <= 0xffff_ffff,
        ;
        assert forall|j: int| 0 <= j < all.len() implies (#[trigger] all[j]).1 <= 0xffff_ffff
            * 0xffff_ffff_ffff_ffff by {
            if l[i].len() == 0 {
                assert(all =~= rest);
                assert(all[j] == rest[j]);
            } else if j > 0 {
                assert(all[j] == rest[j - 1]);
            }
        }
    }
}

impl OrderBook {
    /// The ladder of one side as it is drawn in an area of `width` cells: up
    /// to `n` rows, best price first.
    pub fn ladder_rows(&self, side: Side, n: usize, width: u16) -> (r: Vec<LadderRow>)
        requires
            self.wf(),
        ensures
            r@ == drawn(
                clip(rows(self@.cfg, side, self@.side(side), 0), n as nat),
                bar_cells(width),
            ),
    {
        let depth = self.depth(side, n);
        let full = full_bar(depth.as_slice());
        let cells = bar_cells(width);
        let mut out: Vec<LadderRow> = Vec::new();
        let ghost all = rows(self@.cfg, side, self@.side(side), 0);
        proof {
            assert forall|i: int| 0 <= i < self@.side(side).len() implies (
            #[trigger] self@.side(side)[i]).len() <= u32::MAX by {
                self.lemma_level_len(side, i);
            }
            lemma_rows_small(self@.cfg, side, self@.side(side), 0);
            assert forall|j: int| 0 <= j < depth@.len() implies (#[trigger] depth@[j]).1
                <= 0xffff_ffff * 0xffff_ffff_ffff_ffff by {
                assert(depth@[j] == all[j]);
            }
        }
        let mut i: usize = 0;
        while i < depth.len()
            invariant
                i <= depth@.len(),
                full == most(depth@),
                full >= 1,
                forall|j: int|
                    0 <= j < depth@.len() ==> (#[trigger] depth@[j]).1 <= 0xffff_ffff
                        * 0xffff_ffff_ffff_ffff,
                out@ == drawn(depth@, cells).take(i as int),
            decreases depth@.len() - i,
        {
            let (price, qty, count) = depth[i];
            proof {
                lemma_most(depth@, i as int);
                assert(qty * cells <= u128::MAX) by (nonlinear_arith)
                    requires
                        qty <= 0xffff_ffff * 0xffff_ffff_ffff_ffff,
                        cells <= 0xffff,
                ;
            }
            let bar = bar_len(qty, full, cells);
            out.push(LadderRow { price, qty, count, bar });
            i += 1;
            proof {
                assert(out@ =~= drawn(depth@, cells).take(i as int));
            }
        }
        proof {
            assert(drawn(depth@, cells).take(i as int) =~= drawn(depth@, cells));
        }
        out
    }
}

/// The last `n` trades, newest first.
pub fn last_trades(trades: &[(i64, u64)], n: usize) -> (r: Vec<(i64, u64)>)
    ensures
        r@.len() == if trades@.len() < n {
            trades@.len() as int
        } else {
            n as int
        },
        forall|i: int| 0 <= i < r@.len() ==> #[trigger] r@[i] == trades@[trades@.len() - 1 - i],
{
    let mut r: Vec<(i64, u64)> = Vec::new();
    let mut left = trades.len();
    while left > 0 && r.len() < n
        invariant
            left + r@.len() == trades@.len(),
            r@.len() <= n,
            forall|i: int|
                0 <= i < r@.len() ==> #[trigger] r@[i] == trades@[trades@.len() - 1 - i],
        decreases left,
    {
        left -= 1;
        r.push(trades[left]);
    }
    r
}

/// The last `n` elements.
pub open spec fn tail(s: Seq<u64>, n: int) -> Seq<u64> {
    if s.len() <= n {
        s
    } else {
        s.skip(s.len() - n)
    }
}

/// What one tick adds to the window: its time per event, once for each event
/// up to a limit. A tick without events adds nothing.
pub open spec fn tick_samples(elapsed_ns: u64, events: u64) -> Seq<u64> {
    let n = if events < SAMPLES_PER_TICK {
        events
    } else {
        SAMPLES_PER_TICK
    };
    Seq::new(n as nat, |i: int| (elapsed_ns / events) as u64)
}

/// A rolling window of per-event latencies (display-grade, not
/// benchmark-grade).
pub struct LatencyWindow {
    samples: VecDeque<u64>,
}

impl View for LatencyWindow {
    type V = Seq<u64>;

    closed spec fn view(&self) -> Seq<u64> {
        self.samples@
    }
}

impl LatencyWindow {
    /// An empty window.
    pub fn new() -> (w: Self)
        ensures
            w@ == Seq::<u64>::empty(),
    {
        LatencyWindow { samples: VecDeque::with_capacity(MAX_SAMPLES) }
    }

    /// Take note of a tick. The oldest samples make room for the newest.
    pub fn record(&mut self, elapsed_ns: u64, events: u64)
        requires
            old(self)@.len() <= MAX_SAMPLES,
        ensures
            final(self)@ == tail(
                old(self)@ + tick_samples(elapsed_ns, events),
                MAX_SAMPLES as int,
            ),
            final(self)@.len() <= MAX_SAMPLES,
    {
        let ghost was = self@;
        let ghost new = tick_samples(elapsed_ns, events);
        if events == 0 {
            proof {
                assert(was + new =~= was);
            }
            return;
        }
        let per_event = elapsed_ns / events;
        let n = if events < SAMPLES_PER_TICK {
            events
        } else {
            SAMPLES_PER_TICK
        };
        let mut i: u64 = 0;
        proof {
            assert(was + new.take(0) =~= was);
        }
        while i < n
            invariant
                i <= n == new.len(),
                forall|j: int| 0 <= j < n ==> #[trigger] new[j] == per_event,
                was.len() <= MAX_SAMPLES,
                self@ == tail(was + new.take(i as int), MAX_SAMPLES as int),
            decreases n - i,
        {
            let ghost before = self@;
            if self.samples.len() == MAX_SAMPLES {
                let _ = self.samples.pop_front();
            }
            self.samples.push_back(per_event);
            i += 1;
            proof {
                assert((was + new.take(i as int)) =~= (was + new.take(i - 1)).push(per_event));
                assert(self@ =~= tail(was + new.take(i as int), MAX_SAMPLES as int));
            }
        }
        proof {
            assert(new.take(n as int) =~= new);
        }
    }

    /// The samples, oldest first.
    pub fn to_vec(&self) -> (v: Vec<u64>)
        ensures
            v@ == self@,
    {
        let mut v: Vec<u64> = Vec::new();
        let mut i: usize = 0;
        while i < self.samples.len()
            invariant
                i <= self@.len(),
                v@ == self@.take(i as int),
            decreases self@.len() - i,
        {
            v.push(self.samples[i]);
            i += 1;
            proof {
                assert(v@ =~= self@.take(i as int));
            }
        }
        proof {
            assert(self@.take(i as int) =~= self@);
        }
        v
    }
}

} // verus!
