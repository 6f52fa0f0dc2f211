//! Book configuration, shared by the fast engine and the reference oracle
//! so that both enforce identical price-grid and capacity rules.

use crate::types::Price;
use vstd::arithmetic::div_mod::{lemma_fundamental_div_mod, lemma_fundamental_div_mod_converse};
use vstd::prelude::*;

verus! {

/// The price grid and the capacity of a book.
#[derive(Copy, Clone, Debug, PartialEq, Eq, Structural)]
pub struct BookConfig {
    /// Lowest representable price, in ticks.
    pub min_price: i64,
    /// Price grid step, in ticks. Must be >= 1.
    pub tick_size: i64,
    /// Number of price levels per side. Level i represents price
    /// `min_price + i * tick_size`.
    pub num_levels: u32,
    /// Maximum number of live resting orders (arena capacity).
    pub max_live_orders: u32,
}

impl BookConfig {
    /// A small, human-scale config used across tests.
    pub fn test() -> (c: BookConfig)
        ensures
            c.min_price == 1_000,
            c.tick_size == 1,
            c.num_levels == 1_024,
            c.max_live_orders == 4_096,
            c.wf(),
    {
        BookConfig { min_price: 1_000, tick_size: 1, num_levels: 1_024, max_live_orders: 4_096 }
    }

    /// A usable configuration: a positive tick, a capacity whose every slot
    /// has a `u32` index short of the sentinel, and an order index of twice
    /// that capacity, rounded up to a power of two, that a `usize` can count.
    pub open spec fn wf(&self) -> bool {
        &&& self.tick_size >= 1
        &&& self.max_live_orders < u32::MAX
        &&& 2 * self.max_live_orders <= usize::MAX / 2
    }

    /// Whether the configuration is usable.
    pub fn is_usable(&self) -> (r: bool)
        ensures
            r == self.wf(),
    {
        self.tick_size >= 1 && self.max_live_orders < u32::MAX && self.max_live_orders as usize
            <= usize::MAX / 4
    }

    /// The price that level `idx` stands for.
    pub open spec fn price_at(&self, idx: int) -> int {
        self.min_price + idx * self.tick_size
    }

    /// `idx` is the level of price `p`: the price lies on the grid, and its
    /// distance from the lowest price fits in an `i64`.
    pub open spec fn on_level(&self, p: Price, idx: int) -> bool {
        &&& 0 <= idx < self.num_levels
        &&& p.0 == self.price_at(idx)
        &&& p.0 - self.min_price <= i64::MAX
    }

    /// The level of price `p`, or `None` when `p` is off the grid.
    pub open spec fn level_of(&self, p: Price) -> Option<u32> {
        let off = p.0 - self.min_price;
        if 0 <= off <= i64::MAX && off % (self.tick_size as int) == 0 && off / (
        self.tick_size as int) < self.num_levels {
            Some((off / (self.tick_size as int)) as u32)
        } else {
            None
        }
    }

    /// Map a price onto its level index. `None` if the price is below the
    /// grid, above it, or not aligned to the tick size. Never panics,
    /// never wraps.
    pub fn price_to_idx(&self, p: Price) -> (r: Option<u32>)
        requires
            self.tick_size >= 1,
        ensures
            r == self.level_of(p),
            r matches Some(i) ==> self.on_level(p, i as int),
            r is None ==> forall|i: int| !self.on_level(p, i),
    {
        proof {
            self.lemma_level_of(p);
        }
        match p.0.checked_sub(self.min_price) {
            None => None,
            Some(off) => {
                if off < 0 || off % self.tick_size != 0 {
                    return None;
                }
                let idx = off / self.tick_size;
                if idx >= self.num_levels as i64 {
                    return None;
                }
                Some(idx as u32)
            },
        }
    }

    /// `level_of` answers exactly with the level that a price lies on.
    pub proof fn lemma_level_of(&self, p: Price)
        requires
            self.tick_size >= 1,
        ensures
            self.level_of(p) matches Some(i) ==> self.on_level(p, i as int),
            forall|i: int| #[trigger] self.on_level(p, i) ==> self.level_of(p) == Some(i as u32),
    {
        let off = p.0 - self.min_price;
        let t = self.tick_size as int;
        lemma_fundamental_div_mod(off, t);
        assert(t * (off / t) == (off / t) * t) by (nonlinear_arith);
        if 0 <= off {
            assert(off / t >= 0) by (nonlinear_arith)
                requires
                    off >= 0,
                    t >= 1,
            ;
        }
        assert forall|i: int| #[trigger] self.on_level(p, i) implies self.level_of(p) == Some(
            i as u32,
        ) by {
            assert(i * t >= 0) by (nonlinear_arith)
                requires
                    i >= 0,
                    t >= 1,
            ;
            lemma_fundamental_div_mod_converse(off, t, i, 0);
        }
    }

    /// The price of a level that some order lies on can be computed.
    pub proof fn lemma_price_fits(&self, idx: u32)
        requires
            self.tick_size >= 1,
            exists|p: Price| #[trigger] self.on_level(p, idx as int),
        ensures
            0 <= idx * self.tick_size <= i64::MAX,
            i64::MIN <= self.price_at(idx as int) <= i64::MAX,
    {
        assert(idx * self.tick_size >= 0) by (nonlinear_arith)
            requires
                idx >= 0,
                self.tick_size >= 1,
        ;
    }

    /// The price of level `idx`.
    pub fn idx_to_price(&self, idx: u32) -> (p: Price)
        requires
            i64::MIN <= idx * self.tick_size <= i64::MAX,
            i64::MIN <= self.price_at(idx as int) <= i64::MAX,
        ensures
            p.0 == self.price_at(idx as int),
    {
        Price(self.min_price + idx as i64 * self.tick_size)
    }

    /// The price of the highest level.
    pub fn max_price(&self) -> (p: Price)
        requires
            self.num_levels >= 1,
            i64::MIN <= (self.num_levels - 1) * self.tick_size <= i64::MAX,
            i64::MIN <= self.price_at(self.num_levels - 1) <= i64::MAX,
        ensures
            p.0 == self.price_at(self.num_levels - 1),
    {
        self.idx_to_price(self.num_levels - 1)
    }

    /// The level of a price and the price of a level are inverse to each
    /// other on the grid.
    pub proof fn law_grid_round_trip(&self, p: Price, idx: u32)
        requires
            self.tick_size >= 1,
            idx < self.num_levels,
            p.0 == self.price_at(idx as int),
            idx * self.tick_size <= i64::MAX,
        ensures
            self.level_of(p) == Some(idx),
    {
        self.lemma_level_of(p);
        assert(self.on_level(p, idx as int));
    }

    /// A higher level is a higher price.
    pub proof fn law_grid_monotone(&self, i: int, j: int)
        requires
            self.tick_size >= 1,
        ensures
            i < j <==> self.price_at(i) < self.price_at(j),
    {
        let t = self.tick_size as int;
        assert(i < j ==> i * t < j * t) by (nonlinear_arith)
            requires
                t >= 1,
        ;
        assert(i > j ==> i * t > j * t) by (nonlinear_arith)
            requires
                t >= 1,
        ;
    }
}

} // verus!
