//! Momentum trader: chases directional flow by crossing the spread.
//! Stresses the match loop and multi-level sweeps.

use crate::agent::{Acted, Agent, BookView, IdGen, Ids, Intent};
use crate::rng::{Pcg, Pcg32};
use crate::types::{Price, Qty, SelfTradePrevention, Side, TimeInForce};
use vstd::prelude::*;

verus! {

/// What a momentum trader knows.
pub struct MomentumModel {
    pub ids: Ids,
    pub last_seen: Option<Price>,
    pub activity_pct: u64,
}

/// A fresh momentum trader, drawn from the random stream.
pub open spec fn fresh_momentum(agent_index: u32, rng: Pcg) -> MomentumModel {
    MomentumModel {
        ids: Ids::of_agent(agent_index),
        last_seen: None,
        activity_pct: (3 + rng.below(7)) as u64,
    }
}

impl MomentumModel {
    /// One tick: remember the last trade; where its price moved, now and then
    /// chase it with a marketable immediate-or-cancel order.
    pub open spec fn acts(self, view: BookView, rng: Pcg) -> Acted<MomentumModel> {
        match view.last_trade {
            None => Acted { agent: self, rng, intents: Seq::empty() },
            Some(trade) => {
                let seen = MomentumModel { last_seen: Some(trade), ..self };
                match self.last_seen {
                    None => Acted { agent: seen, rng, intents: Seq::empty() },
                    Some(prev) => if trade == prev {
                        Acted { agent: seen, rng, intents: Seq::empty() }
                    } else if !rng.chance(self.activity_pct) {
                        Acted { agent: seen, rng: rng.next(), intents: Seq::empty() }
                    } else {
                        let up = trade.0 > prev.0;
                        let touch = if up {
                            view.best_ask
                        } else {
                            view.best_bid
                        };
                        let drawn = rng.next();
                        match touch {
                            None => Acted { agent: seen, rng: drawn, intents: Seq::empty() },
                            Some(p) => {
                                let off = drawn.range(0, 4);
                                let limit = if up {
                                    p.0 + off
                                } else {
                                    p.0 - off
                                };
                                Acted {
                                    agent: MomentumModel { ids: self.ids.step(), ..seen },
                                    rng: drawn.next().next(),
                                    intents: seq![
                                        Intent::New {
                                            order_id: self.ids.id(),
                                            side: if up {
                                                Side::Bid
                                            } else {
                                                Side::Ask
                                            },
                                            price: Price(limit as i64),
                                            qty: Qty((10 + drawn.next().below(190)) as u64),
                                            tif: TimeInForce::Ioc,
                                            stp: SelfTradePrevention::Disabled,
                                        },
                                    ],
                                }
                            },
                        }
                    },
                }
            },
        }
    }
}

/// A momentum trader.
pub struct Momentum {
    ids: IdGen,
    last_seen: Option<Price>,
    /// Fires on roughly this % of ticks.
    activity_pct: u64,
}

impl View for Momentum {
    type V = MomentumModel;

    closed spec fn view(&self) -> MomentumModel {
        MomentumModel {
            ids: self.ids@,
            last_seen: self.last_seen,
            activity_pct: self.activity_pct,
        }
    }
}

impl Momentum {
    /// A momentum trader with a character drawn from `rng`.
    pub fn new(agent_index: u32, rng: &mut Pcg32) -> (r: Self)
        ensures
            r@ == fresh_momentum(agent_index, old(rng)@),
            final(rng)@ == old(rng)@.next(),
    {
        Momentum {
            ids: IdGen::for_agent(agent_index),
            last_seen: None,
            activity_pct: 3 + rng.below(7),
        }
    }
}

impl Agent for Momentum {
    open spec fn ready(&self, view: BookView) -> bool {
        &&& self@.ids.left(1)
        &&& view.best_ask matches Some(a) ==> a.0 <= i64::MAX - 3
        &&& view.best_bid matches Some(b) ==> b.0 >= i64::MIN + 3
    }

    fn act(&mut self, view: &BookView, rng: &mut Pcg32, out: &mut Vec<Intent>)
        ensures
            final(self)@ == old(self)@.acts(*view, old(rng)@).agent,
            final(rng)@ == old(self)@.acts(*view, old(rng)@).rng,
            final(out)@ == old(out)@ + old(self)@.acts(*view, old(rng)@).intents,
    {
        let ghost before = out@;
        proof {
            assert(before + Seq::<Intent>::empty() =~= before);
        }
        let trade = match view.last_trade {
            Some(t) => t,
            None => return,
        };
        let seen = self.last_seen;
        self.last_seen = Some(trade);
        let prev = match seen {
            Some(p) => p,
            None => return,
        };
        if trade == prev || !rng.chance(self.activity_pct) {
            return;
        }
        // Price moved: chase it with a marketable IOC. Sweeping several
        // levels is the point.
        let up = trade.0 > prev.0;
        let (side, limit) = if up {
            match view.best_ask {
                Some(a) => (Side::Bid, Price(a.0 + rng.range_i64(0, 4))),
                None => return,
            }
        } else {
            match view.best_bid {
                Some(b) => (Side::Ask, Price(b.0 - rng.range_i64(0, 4))),
                None => return,
            }
        };
        let order_id = self.ids.next();
        out.push(
            Intent::New {
                order_id,
                side,
                price: limit,
                qty: Qty(10 + rng.below(190)),
                tif: TimeInForce::Ioc,
                stp: SelfTradePrevention::Disabled,
            },
        );
        proof {
            assert(out@ =~= before + old(self)@.acts(*view, old(rng)@).intents);
        }
    }
}

} // verus!
