//! Noise trader: Poisson-arrival random orders around the mid. Baseline
//! load, resting liquidity at depth, and occasional stale-order cancels.

use crate::agent::{
    clamp_i64, clamped, grid_ok, lemma_grid, top_price, Acted, Agent, BookView, IdGen, Ids, Intent,
};
use crate::config::BookConfig;
use crate::rng::{Pcg, Pcg32};
use crate::types::{OrderId, Price, Qty, SelfTradePrevention, Side, TimeInForce};
use vstd::prelude::*;

verus! {

/// What a noise trader knows.
#[verifier::ext_equal]
pub struct NoiseModel {
    pub ids: Ids,
    pub cfg: BookConfig,
    pub arrival_pct: u64,
    pub resting: Seq<OrderId>,
}

/// A fresh noise trader, drawn from the random stream.
pub open spec fn fresh_noise(agent_index: u32, cfg: BookConfig, rng: Pcg) -> NoiseModel {
    NoiseModel {
        ids: Ids::of_agent(agent_index),
        cfg,
        arrival_pct: (10 + rng.below(20)) as u64,
        resting: Seq::empty(),
    }
}

/// A geometric-ish offset: one more tick with a chance of 60 percent each,
/// 20 at most.
pub open spec fn drawn_offset(rng: Pcg, off: int) -> int
    decreases 20 - off,
{
    if rng.chance(60) && off < 20 {
        drawn_offset(rng.next(), off + 1)
    } else {
        off
    }
}

/// Where drawing the offset leaves the random stream.
pub open spec fn behind_offset(rng: Pcg, off: int) -> Pcg
    decreases 20 - off,
{
    if rng.chance(60) && off < 20 {
        behind_offset(rng.next(), off + 1)
    } else {
        rng.next()
    }
}

impl NoiseModel {
    /// Occasionally clean up an old resting order.
    pub open spec fn cleans_up(self, rng: Pcg) -> Acted<NoiseModel> {
        if self.resting.len() == 0 {
            Acted { agent: self, rng, intents: Seq::empty() }
        } else if !rng.chance(15) {
            Acted { agent: self, rng: rng.next(), intents: Seq::empty() }
        } else {
            let k = rng.next().below(self.resting.len() as u64) as int;
            Acted {
                agent: NoiseModel {
                    resting: self.resting.update(k, self.resting.last()).drop_last(),
                    ..self
                },
                rng: rng.next().next(),
                intents: seq![Intent::Cancel { order_id: self.resting[k] }],
            }
        }
    }

    /// Perhaps a new order around the middle.
    pub open spec fn arrives(self, view: BookView, rng: Pcg) -> Acted<NoiseModel> {
        if !rng.chance(self.arrival_pct) {
            Acted { agent: self, rng: rng.next(), intents: Seq::empty() }
        } else {
            let center = match view.middle() {
                Some(p) => p.0,
                None => view.ref_price.0,
            };
            let off = drawn_offset(rng.next(), 0);
            let r1 = behind_offset(rng.next(), 0);
            let side = if r1.chance(50) {
                Side::Bid
            } else {
                Side::Ask
            };
            let raw = match side {
                Side::Bid => center - off,
                Side::Ask => center + off,
            };
            let r2 = r1.next();
            let tif = if r2.chance(25) {
                TimeInForce::Ioc
            } else {
                TimeInForce::Gtc
            };
            let r3 = r2.next();
            let id = self.ids.id();
            Acted {
                agent: NoiseModel {
                    ids: self.ids.step(),
                    resting: if tif == TimeInForce::Gtc {
                        self.resting.push(id)
                    } else {
                        self.resting
                    },
                    ..self
                },
                rng: r3.next(),
                intents: seq![
                    Intent::New {
                        order_id: id,
                        side,
                        price: Price(
                            clamped(raw, self.cfg.min_price as int, top_price(self.cfg)) as i64,
                        ),
                        qty: Qty((1 + r3.below(50)) as u64),
                        tif,
                        stp: SelfTradePrevention::Disabled,
                    },
                ],
            }
        }
    }

    /// One tick: clean up, then arrive.
    pub open spec fn acts(self, view: BookView, rng: Pcg) -> Acted<NoiseModel> {
        let first = self.cleans_up(rng);
        let second = first.agent.arrives(view, first.rng);
        Acted { agent: second.agent, rng: second.rng, intents: first.intents + second.intents }
    }
}

/// A noise trader.
pub struct Noise {
    ids: IdGen,
    cfg: BookConfig,
    /// Arrival probability per tick, in percent.
    arrival_pct: u64,
    resting: Vec<OrderId>,
}

impl View for Noise {
    type V = NoiseModel;

    closed spec fn view(&self) -> NoiseModel {
        NoiseModel {
            ids: self.ids@,
            cfg: self.cfg,
            arrival_pct: self.arrival_pct,
            resting: self.resting@,
        }
    }
}

impl Noise {
    /// A noise trader with a character drawn from `rng`.
    pub fn new(agent_index: u32, cfg: BookConfig, rng: &mut Pcg32) -> (r: Self)
        ensures
            r@ == fresh_noise(agent_index, cfg, old(rng)@),
            final(rng)@ == old(rng)@.next(),
    {
        let r = Noise {
            ids: IdGen::for_agent(agent_index),
            cfg,
            arrival_pct: 10 + rng.below(20),
            resting: Vec::new(),
        };
        proof {
            assert(r@ =~= fresh_noise(agent_index, cfg, old(rng)@));
        }
        r
    }

    fn clean_up(&mut self, rng: &mut Pcg32, out: &mut Vec<Intent>)
        ensures
            final(self)@ == old(self)@.cleans_up(old(rng)@).agent,
            final(rng)@ == old(self)@.cleans_up(old(rng)@).rng,
            final(out)@ == old(out)@ + old(self)@.cleans_up(old(rng)@).intents,
    {
        let ghost before = out@;
        if self.resting.len() > 0 && rng.chance(15) {
            let idx = rng.below(self.resting.len() as u64) as usize;
            let order_id = self.resting.swap_remove(idx);
            out.push(Intent::Cancel { order_id });
        }
        proof {
            assert(out@ =~= before + old(self)@.cleans_up(old(rng)@).intents);
            assert(self@ =~= old(self)@.cleans_up(old(rng)@).agent);
        }
    }
}

/// Draw the offset.
fn draw_offset(rng: &mut Pcg32) -> (off: i64)
    ensures
        off == drawn_offset(old(rng)@, 0),
        0 <= off <= 20,
        final(rng)@ == behind_offset(old(rng)@, 0),
{
    let ghost start = rng@;
    let mut off: i64 = 0;
    loop
        invariant
            0 <= off <= 20,
            drawn_offset(start, 0) == drawn_offset(rng@, off as int),
            behind_offset(start, 0) == behind_offset(rng@, off as int),
            start == old(rng)@,
        decreases 21 - off,
    {
        let more = rng.chance(60);
        if !(more && off < 20) {
            return off;
        }
        off += 1;
    }
}

impl Agent for Noise {
    open spec fn ready(&self, view: BookView) -> bool {
        &&& grid_ok(self@.cfg, 0)
        &&& self@.ids.left(1)
        &&& view.mid_fits()
        &&& i64::MIN + 20 <= view.ref_price.0 <= i64::MAX - 20
        &&& view.middle() matches Some(p) ==> i64::MIN + 20 <= p.0 <= i64::MAX - 20
    }

    fn act(&mut self, view: &BookView, rng: &mut Pcg32, out: &mut Vec<Intent>)
        ensures
            final(self)@ == old(self)@.acts(*view, old(rng)@).agent,
            final(rng)@ == old(self)@.acts(*view, old(rng)@).rng,
            final(out)@ == old(out)@ + old(self)@.acts(*view, old(rng)@).intents,
    {
        let ghost before = out@;
        // Occasionally clean up an old resting order.
        self.clean_up(rng, out);
        let ghost first = old(self)@.cleans_up(old(rng)@);
        proof {
            assert(first.intents + Seq::<Intent>::empty() =~= first.intents);
        }
        if !rng.chance(self.arrival_pct) {
            return;
        }
        let center = match view.mid() {
            Some(p) => p.0,
            None => view.ref_price.0,
        };
        // Geometric-ish offset: mostly at/near the touch, occasionally deep.
        let off = draw_offset(rng);
        let side = if rng.chance(50) {
            Side::Bid
        } else {
            Side::Ask
        };
        let raw = match side {
            Side::Bid => center - off,
            Side::Ask => center + off,
        };
        proof {
            lemma_grid(self.cfg);
        }
        let price = Price(clamp_i64(raw, self.cfg.min_price, self.cfg.max_price().0));
        let tif = if rng.chance(25) {
            TimeInForce::Ioc
        } else {
            TimeInForce::Gtc
        };
        let id = self.ids.next();
        if tif == TimeInForce::Gtc {
            self.resting.push(id);
        }
        out.push(
            Intent::New {
                order_id: id,
                side,
                price,
                qty: Qty(1 + rng.below(50)),
                tif,
                stp: SelfTradePrevention::Disabled,
            },
        );
        proof {
            assert(out@ =~= before + old(self)@.acts(*view, old(rng)@).intents);
            assert(self@ =~= old(self)@.acts(*view, old(rng)@).agent);
        }
    }
}

} // verus!
