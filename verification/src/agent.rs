//! The agent abstraction: each agent sees a cheap view of the market and
//! emits order intents. The runner sequences them, applies them to the
//! engine, and feeds the results back into the view.

use crate::config::BookConfig;
use crate::events::InputEvent;
use crate::rng::{Pcg, Pcg32};
use crate::types::{OrderId, Price, Qty, SelfTradePrevention, SeqNo, Side, TimeInForce, TraderId};
use vstd::prelude::*;

verus! {

/// Half of `x`, rounded towards zero.
pub open spec fn half(x: int) -> int {
    if x >= 0 {
        x / 2
    } else {
        -((-x) / 2)
    }
}

/// `p` moved into `lo..=hi`.
pub open spec fn clamped(p: int, lo: int, hi: int) -> int {
    if p < lo {
        lo
    } else if p > hi {
        hi
    } else {
        p
    }
}

/// What an agent is allowed to see. Deliberately shallow: real
/// participants see a market data feed, not the matching engine's guts.
#[derive(Copy, Clone, Debug)]
pub struct BookView {
    pub best_bid: Option<Price>,
    pub best_ask: Option<Price>,
    /// The exogenous reference price (the "true value" random walk), in
    /// ticks, clamped to the grid.
    pub ref_price: Price,
    pub last_trade: Option<Price>,
    /// Total resting orders (proxy for depth).
    pub live_orders: u32,
}

impl BookView {
    /// The middle between the best prices.
    pub open spec fn middle(self) -> Option<Price> {
        match (self.best_bid, self.best_ask) {
            (Some(b), Some(a)) => Some(Price(half(b.0 + a.0) as i64)),
            _ => None,
        }
    }

    /// The sum of the best prices can be computed.
    pub open spec fn mid_fits(self) -> bool {
        match (self.best_bid, self.best_ask) {
            (Some(b), Some(a)) => i64::MIN <= b.0 + a.0 <= i64::MAX,
            _ => true,
        }
    }

    /// The middle between the best prices, `None` where a side is empty.
    pub fn mid(&self) -> (r: Option<Price>)
        requires
            self.mid_fits(),
        ensures
            r == self.middle(),
    {
        match (self.best_bid, self.best_ask) {
            (Some(b), Some(a)) => {
                Some(Price((b.0 + a.0) / 2))
            },
            _ => None,
        }
    }
}

/// `p` moved into `lo..=hi`.
pub(crate) fn clamp_i64(p: i64, lo: i64, hi: i64) -> (r: i64)
    requires
        lo <= hi,
    ensures
        r == clamped(p as int, lo as int, hi as int),
        lo <= r <= hi,
{
    if p < lo {
        lo
    } else if p > hi {
        hi
    } else {
        p
    }
}

/// The price of the highest level of a grid.
pub open spec fn top_price(cfg: BookConfig) -> int {
    cfg.price_at(cfg.num_levels - 1)
}

/// The grid has a level, and its highest price can be computed with `margin`
/// ticks to spare at either end.
pub open spec fn grid_ok(cfg: BookConfig, margin: int) -> bool {
    &&& cfg.tick_size >= 1
    &&& cfg.num_levels >= 1
    &&& (cfg.num_levels - 1) * cfg.tick_size <= i64::MAX
    &&& i64::MIN + margin <= cfg.min_price
    &&& top_price(cfg) <= i64::MAX - margin
}

/// The highest price is no lower than the lowest.
pub proof fn lemma_grid(cfg: BookConfig)
    requires
        cfg.tick_size >= 1,
        cfg.num_levels >= 1,
    ensures
        0 <= (cfg.num_levels - 1) * cfg.tick_size,
        cfg.min_price <= top_price(cfg),
{
    assert(0 <= (cfg.num_levels - 1) * cfg.tick_size) by (nonlinear_arith)
        requires
            cfg.tick_size >= 1,
            cfg.num_levels >= 1,
    ;
}

/// Order intents: like `InputEvent` but without a sequence number, which is
/// the runner's job (in the real system, the shell's).
#[derive(Copy, Clone, Debug)]
pub enum Intent {
    New {
        order_id: OrderId,
        side: Side,
        price: Price,
        qty: Qty,
        tif: TimeInForce,
        stp: SelfTradePrevention,
    },
    Cancel { order_id: OrderId },
    Modify { order_id: OrderId, new_price: Price, new_qty: Qty },
}

impl Intent {
    /// The instruction that an intent becomes.
    #[verifier::allow_in_spec]
    pub fn into_event(self, seq: u64, trader: TraderId) -> InputEvent
        returns
            (match self {
                Intent::New { order_id, side, price, qty, tif, stp } => InputEvent::New {
                    seq: SeqNo(seq),
                    order_id,
                    trader,
                    side,
                    price,
                    qty,
                    tif,
                    stp,
                },
                Intent::Cancel { order_id } => InputEvent::Cancel {
                    seq: SeqNo(seq),
                    order_id,
                    trader,
                },
                Intent::Modify { order_id, new_price, new_qty } => InputEvent::Modify {
                    seq: SeqNo(seq),
                    order_id,
                    trader,
                    new_price,
                    new_qty,
                },
            }),
    {
        match self {
            Intent::New { order_id, side, price, qty, tif, stp } => InputEvent::New {
                seq: SeqNo(seq),
                order_id,
                trader,
                side,
                price,
                qty,
                tif,
                stp,
            },
            Intent::Cancel { order_id } => InputEvent::Cancel {
                seq: SeqNo(seq),
                order_id,
                trader,
            },
            Intent::Modify { order_id, new_price, new_qty } => InputEvent::Modify {
                seq: SeqNo(seq),
                order_id,
                trader,
                new_price,
                new_qty,
            },
        }
    }
}

/// What an agent does on a tick: its next state, where it leaves the random
/// stream, and what it wants.
pub struct Acted<M> {
    pub agent: M,
    pub rng: Pcg,
    pub intents: Seq<Intent>,
}

/// A participant of the market.
pub trait Agent {
    /// The agent can act on this view.
    spec fn ready(&self, view: BookView) -> bool;

    /// One simulation tick: observe, decide, emit intents.
    fn act(&mut self, view: &BookView, rng: &mut Pcg32, out: &mut Vec<Intent>)
        requires
            old(self).ready(*view),
        ensures
            old(out)@.is_prefix_of(final(out)@),
    ;
}

/// A point in the order ids of an agent.
pub struct Ids {
    pub base: u64,
    pub used: u64,
}

impl Ids {
    /// The ids of agent number `agent_index`.
    pub open spec fn of_agent(agent_index: u32) -> Ids {
        Ids { base: ((agent_index + 1) as u64) << 40, used: 0 }
    }

    /// The next id.
    pub open spec fn id(self) -> OrderId {
        OrderId(self.base | ((self.used + 1) as u64))
    }

    /// The point behind the next id.
    pub open spec fn step(self) -> Ids {
        Ids { used: (self.used + 1) as u64, ..self }
    }

    /// The point behind the first `n` ids.
    pub open spec fn after(self, n: u64) -> Ids {
        Ids { used: n, ..self }
    }

    /// There are `n` more ids.
    pub open spec fn left(self, n: int) -> bool {
        self.used + n <= u64::MAX
    }
}

/// Per-agent order id allocator: agent `a`'s ids live in a disjoint
/// namespace (top 24 bits), so agents never collide.
pub struct IdGen {
    base: u64,
    used: u64,
}

impl View for IdGen {
    type V = Ids;

    closed spec fn view(&self) -> Ids {
        Ids { base: self.base, used: self.used }
    }
}

impl IdGen {
    /// The allocator of agent number `agent_index`.
    pub fn for_agent(agent_index: u32) -> (g: Self)
        ensures
            g@ == Ids::of_agent(agent_index),
    {
        IdGen { base: (agent_index as u64 + 1) << 40, used: 0 }
    }

    /// A fresh id.
    pub fn next(&mut self) -> (id: OrderId)
        requires
            old(self)@.left(1),
        ensures
            id == old(self)@.id(),
            final(self)@ == old(self)@.step(),
    {
        self.used += 1;
        OrderId(self.base | self.used)
    }
}

/// Agents never collide: below the 40th bit agents count for themselves, above
/// it stands who they are, so two ids are equal only for the same agent and
/// the same count.
pub proof fn law_agent_ids_disjoint(a: u32, n: u64, b: u32, m: u64)
    requires
        a < 0xff_ffff,
        b < 0xff_ffff,
        n < 0xff_ffff_ffff,
        m < 0xff_ffff_ffff,
        Ids::of_agent(a).after(n).id() == Ids::of_agent(b).after(m).id(),
    ensures
        a == b,
        n == m,
{
    let x = (a + 1) as u64;
    let y = (b + 1) as u64;
    let p = (n + 1) as u64;
    let q = (m + 1) as u64;
    assert((x << 40) | p == (y << 40) | q ==> x == y && p == q) by (bit_vector)
        requires
            x <= 0xff_ffff,
            y <= 0xff_ffff,
            p <= 0xff_ffff_ffff,
            q <= 0xff_ffff_ffff,
    ;
}

} // verus!
