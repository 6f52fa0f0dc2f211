//! Adversarial agent: tries to break the engine, not to make money.
//! Hammers a single level, runs submit-cancel tight loops, parks orders
//! at the grid edges, and fires exact-fill and FOK probes at the touch.

use crate::agent::{
    grid_ok, lemma_grid, top_price, Acted, Agent, BookView, IdGen, Ids, Intent,
};
use crate::config::BookConfig;
use crate::rng::{Pcg, Pcg32};
use crate::types::{OrderId, Price, Qty, SelfTradePrevention, Side, TimeInForce};
use vstd::prelude::*;

verus! {

/// What an adversarial agent knows.
#[verifier::ext_equal]
pub struct AdversarialModel {
    pub ids: Ids,
    pub cfg: BookConfig,
    pub pending_cancel: Seq<OrderId>,
    pub target_level: i64,
}

/// A fresh adversarial agent, drawn from the random stream: it aims near the
/// middle of the grid.
pub open spec fn fresh_adversarial(
    agent_index: u32,
    cfg: BookConfig,
    rng: Pcg,
) -> AdversarialModel {
    AdversarialModel {
        ids: Ids::of_agent(agent_index),
        cfg,
        pending_cancel: Seq::empty(),
        target_level: (cfg.min_price + (top_price(cfg) - cfg.min_price) / 2 + rng.range(-4, 5)) as i64,
    }
}

/// The cancels of a list of orders.
pub open spec fn cancels(ids: Seq<OrderId>) -> Seq<Intent> {
    Seq::new(ids.len(), |i: int| Intent::Cancel { order_id: ids[i] })
}

/// The side of a coin flip.
pub open spec fn flipped(rng: Pcg) -> Side {
    if rng.chance(50) {
        Side::Bid
    } else {
        Side::Ask
    }
}

impl AdversarialModel {
    /// A burst of `n` orders on the one level.
    pub open spec fn bursts(self, rng: Pcg, n: nat) -> Acted<AdversarialModel>
        decreases n,
    {
        if n == 0 {
            Acted { agent: self, rng, intents: Seq::empty() }
        } else {
            let before = self.bursts(rng, (n - 1) as nat);
            let a = before.agent;
            let r = before.rng;
            let id = a.ids.id();
            Acted {
                agent: AdversarialModel {
                    ids: a.ids.step(),
                    pending_cancel: if r.next().next().chance(70) {
                        a.pending_cancel.push(id)
                    } else {
                        a.pending_cancel
                    },
                    ..a
                },
                rng: r.next().next().next(),
                intents: before.intents.push(
                    Intent::New {
                        order_id: id,
                        side: flipped(r),
                        price: Price(a.target_level),
                        qty: Qty((1 + r.next().below(10)) as u64),
                        tif: TimeInForce::Gtc,
                        stp: SelfTradePrevention::CancelBoth,
                    },
                ),
            }
        }
    }

    /// An order at an edge of the grid.
    pub open spec fn parks(self, rng: Pcg) -> Acted<AdversarialModel> {
        let low = rng.chance(50);
        let id = self.ids.id();
        Acted {
            agent: AdversarialModel {
                ids: self.ids.step(),
                pending_cancel: self.pending_cancel.push(id),
                ..self
            },
            rng: rng.next(),
            intents: seq![
                Intent::New {
                    order_id: id,
                    side: if low {
                        Side::Bid
                    } else {
                        Side::Ask
                    },
                    price: Price(
                        if low {
                            self.cfg.min_price
                        } else {
                            top_price(self.cfg) as i64
                        },
                    ),
                    qty: Qty(1),
                    tif: TimeInForce::Gtc,
                    stp: SelfTradePrevention::Disabled,
                },
            ],
        }
    }

    /// An exact-fill probe: immediate-or-cancel at the best ask.
    pub open spec fn probes_ask(self, view: BookView, rng: Pcg) -> Acted<AdversarialModel> {
        match view.best_ask {
            None => Acted { agent: self, rng, intents: Seq::empty() },
            Some(ask) => Acted {
                agent: AdversarialModel { ids: self.ids.step(), ..self },
                rng: rng.next(),
                intents: seq![
                    Intent::New {
                        order_id: self.ids.id(),
                        side: Side::Bid,
                        price: ask,
                        qty: Qty((1 + rng.below(30)) as u64),
                        tif: TimeInForce::Ioc,
                        stp: SelfTradePrevention::CancelResting,
                    },
                ],
            },
        }
    }

    /// A fill-or-kill probe at the best bid that mostly cannot fill.
    pub open spec fn probes_bid(self, view: BookView, rng: Pcg) -> Acted<AdversarialModel> {
        match view.best_bid {
            None => Acted { agent: self, rng, intents: Seq::empty() },
            Some(bid) => Acted {
                agent: AdversarialModel { ids: self.ids.step(), ..self },
                rng: rng.next(),
                intents: seq![
                    Intent::New {
                        order_id: self.ids.id(),
                        side: Side::Ask,
                        price: bid,
                        qty: Qty((500 + rng.below(5_000)) as u64),
                        tif: TimeInForce::Fok,
                        stp: SelfTradePrevention::Disabled,
                    },
                ],
            },
        }
    }

    /// One tick: flush the pending cancels, then one of four attacks.
    pub open spec fn acts(self, view: BookView, rng: Pcg) -> Acted<AdversarialModel> {
        let idle = AdversarialModel { pending_cancel: Seq::empty(), ..self };
        let attack = rng.below(4);
        let r = rng.next();
        let a = if attack == 0 {
            idle.bursts(r.next(), (1 + r.below(8)) as nat)
        } else if attack == 1 {
            idle.parks(r)
        } else if attack == 2 {
            idle.probes_ask(view, r)
        } else {
            idle.probes_bid(view, r)
        };
        Acted { intents: cancels(self.pending_cancel) + a.intents, ..a }
    }
}

/// An adversarial agent.
pub struct Adversarial {
    ids: IdGen,
    cfg: BookConfig,
    /// Ids from the submit-cancel loop awaiting their cancel.
    pending_cancel: Vec<OrderId>,
    /// The one level this agent hammers.
    target_level: i64,
}

impl View for Adversarial {
    type V = AdversarialModel;

    closed spec fn view(&self) -> AdversarialModel {
        AdversarialModel {
            ids: self.ids@,
            cfg: self.cfg,
            pending_cancel: self.pending_cancel@,
            target_level: self.target_level,
        }
    }
}

impl Adversarial {
    /// An adversarial agent with a target drawn from `rng`.
    pub fn new(agent_index: u32, cfg: BookConfig, rng: &mut Pcg32) -> (r: Self)
        requires
            grid_ok(cfg, 4),
            top_price(cfg) - cfg.min_price <= i64::MAX,
        ensures
            r@ == fresh_adversarial(agent_index, cfg, old(rng)@),
            final(rng)@ == old(rng)@.next(),
    {
        proof {
            lemma_grid(cfg);
        }
        let span = cfg.max_price().0 - cfg.min_price;
        let r = Adversarial {
            ids: IdGen::for_agent(agent_index),
            cfg,
            pending_cancel: Vec::new(),
            target_level: cfg.min_price + span / 2 + rng.range_i64(-4, 5),
        };
        proof {
            assert(r@ =~= fresh_adversarial(agent_index, cfg, old(rng)@));
        }
        r
    }

    /// Flush the submit-cancel loop.
    fn flush(&mut self, out: &mut Vec<Intent>)
        ensures
            final(self)@ == (AdversarialModel { pending_cancel: Seq::empty(), ..old(self)@ }),
            final(out)@ == old(out)@ + cancels(old(self)@.pending_cancel),
    {
        let ghost before = out@;
        let ghost was = self@;
        let mut i: usize = 0;
        while i < self.pending_cancel.len()
            invariant
                self@ == was,
                was.pending_cancel == self.pending_cancel@,
                i <= self.pending_cancel@.len(),
                out@ == before + cancels(was.pending_cancel).take(i as int),
            decreases self.pending_cancel@.len() - i,
        {
            out.push(Intent::Cancel { order_id: self.pending_cancel[i] });
            i += 1;
            proof {
                assert(out@ =~= before + cancels(was.pending_cancel).take(i as int));
            }
        }
        self.pending_cancel.clear();
        proof {
            assert(cancels(was.pending_cancel).take(i as int) =~= cancels(was.pending_cancel));
            assert(self@ =~= AdversarialModel { pending_cancel: Seq::empty(), ..was });
        }
    }

    /// Hammer one price level with a burst.
    fn burst(&mut self, n: u64, rng: &mut Pcg32, out: &mut Vec<Intent>)
        requires
            old(self)@.ids.left(n as int),
        ensures
            final(self)@ == old(self)@.bursts(old(rng)@, n as nat).agent,
            final(rng)@ == old(self)@.bursts(old(rng)@, n as nat).rng,
            final(out)@ == old(out)@ + old(self)@.bursts(old(rng)@, n as nat).intents,
    {
        let ghost was = self@;
        let ghost r0 = rng@;
        let ghost before = out@;
        let mut i: u64 = 0;
        proof {
            assert(before + Seq::<Intent>::empty() =~= before);
        }
        while i < n
            invariant
                i <= n,
                was.ids.left(n as int),
                self@.ids.used == was.ids.used + i,
                self@ == was.bursts(r0, i as nat).agent,
                rng@ == was.bursts(r0, i as nat).rng,
                out@ == before + was.bursts(r0, i as nat).intents,
            decreases n - i,
        {
            let id = self.ids.next();
            let side = if rng.chance(50) {
                Side::Bid
            } else {
                Side::Ask
            };
            out.push(
                Intent::New {
                    order_id: id,
                    side,
                    price: Price(self.target_level),
                    qty: Qty(1 + rng.below(10)),
                    tif: TimeInForce::Gtc,
                    stp: SelfTradePrevention::CancelBoth,
                },
            );
            if rng.chance(70) {
                self.pending_cancel.push(id);
            }
            i += 1;
            proof {
                assert(out@ =~= before + was.bursts(r0, i as nat).intents);
                assert(self@ =~= was.bursts(r0, i as nat).agent);
            }
        }
    }
}

impl Agent for Adversarial {
    open spec fn ready(&self, view: BookView) -> bool {
        &&& grid_ok(self@.cfg, 0)
        &&& self@.ids.left(8)
    }

    fn act(&mut self, view: &BookView, rng: &mut Pcg32, out: &mut Vec<Intent>)
        ensures
            final(self)@ == old(self)@.acts(*view, old(rng)@).agent,
            final(rng)@ == old(self)@.acts(*view, old(rng)@).rng,
            final(out)@ == old(out)@ + old(self)@.acts(*view, old(rng)@).intents,
    {
        let ghost before = out@;
        let ghost was = self@;
        let ghost r0 = rng@;
        // Flush yesterday's submit-cancel loop first (tight churn).
        self.flush(out);
        let ghost idle = self@;
        let ghost flushed = out@;
        let attack = rng.below(4);
        if attack == 0 {
            let n = 1 + rng.below(8);
            self.burst(n, rng, out);
        } else if attack == 1 {
            // Orders at the exact book edges.
            proof {
                lemma_grid(self.cfg);
            }
            let (price, side) = if rng.chance(50) {
                (Price(self.cfg.min_price), Side::Bid)
            } else {
                (self.cfg.max_price(), Side::Ask)
            };
            let id = self.ids.next();
            self.pending_cancel.push(id);
            out.push(
                Intent::New {
                    order_id: id,
                    side,
                    price,
                    qty: Qty(1),
                    tif: TimeInForce::Gtc,
                    stp: SelfTradePrevention::Disabled,
                },
            );
            proof {
                assert(self@ =~= idle.parks(r0.next()).agent);
                assert(out@ =~= flushed + idle.parks(r0.next()).intents);
            }
        } else if attack == 2 {
            // Exact-fill probe: IOC for precisely what's quoted at the touch.
            if let Some(ask) = view.best_ask {
                let order_id = self.ids.next();
                out.push(
                    Intent::New {
                        order_id,
                        side: Side::Bid,
                        price: ask,
                        qty: Qty(1 + rng.below(30)),
                        tif: TimeInForce::Ioc,
                        stp: SelfTradePrevention::CancelResting,
                    },
                );
            }
            proof {
                assert(self@ =~= idle.probes_ask(*view, r0.next()).agent);
                assert(out@ =~= flushed + idle.probes_ask(*view, r0.next()).intents);
            }
        } else {
            // FOK probes that mostly can't fill (pre-check stress).
            if let Some(bid) = view.best_bid {
                let order_id = self.ids.next();
                out.push(
                    Intent::New {
                        order_id,
                        side: Side::Ask,
                        price: bid,
                        qty: Qty(500 + rng.below(5_000)),
                        tif: TimeInForce::Fok,
                        stp: SelfTradePrevention::Disabled,
                    },
                );
            }
            proof {
                assert(self@ =~= idle.probes_bid(*view, r0.next()).agent);
                assert(out@ =~= flushed + idle.probes_bid(*view, r0.next()).intents);
            }
        }
        proof {
            assert(out@ =~= before + was.acts(*view, r0).intents);
        }
    }
}

} // verus!
