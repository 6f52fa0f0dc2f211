//! Market maker: quotes both sides around the reference price and
//! requotes whenever it drifts. This agent is what produces the realistic
//! ~90% cancel rate: almost every quote it posts dies by cancel, not by
//! fill, exactly like production market-making flow.

use crate::agent::{
    clamp_i64, clamped, grid_ok, lemma_grid, top_price, Acted, Agent, BookView, IdGen, Ids, Intent,
};
use crate::config::BookConfig;
use crate::rng::{Pcg, Pcg32};
use crate::types::{OrderId, Price, Qty, SelfTradePrevention, Side, TimeInForce};
use vstd::prelude::*;

verus! {

/// What a market maker knows.
pub struct MakerModel {
    pub ids: Ids,
    pub cfg: BookConfig,
    pub half_spread: i64,
    pub quote_size: u64,
    pub tolerance: i64,
    pub live_bid: Option<(OrderId, Price)>,
    pub live_ask: Option<(OrderId, Price)>,
}

/// A quote is missing, or further than `tolerance` from where it should be.
pub open spec fn drifted(cur: Option<(OrderId, Price)>, want: int, tolerance: int) -> bool {
    match cur {
        None => true,
        Some((_, p)) => p.0 - want > tolerance || want - p.0 > tolerance,
    }
}

/// The cancel of a live quote.
pub open spec fn cancel_of(cur: Option<(OrderId, Price)>) -> Seq<Intent> {
    match cur {
        Some((id, _)) => seq![Intent::Cancel { order_id: id }],
        None => Seq::empty(),
    }
}

impl MakerModel {
    /// Where the bid should be.
    pub open spec fn want_bid(self, view: BookView) -> int {
        clamped(
            view.ref_price.0 - self.half_spread,
            self.cfg.min_price as int,
            top_price(self.cfg),
        )
    }

    /// Where the ask should be.
    pub open spec fn want_ask(self, view: BookView) -> int {
        clamped(
            view.ref_price.0 + self.half_spread,
            self.cfg.min_price as int,
            top_price(self.cfg),
        )
    }

    /// The quotes lie on the grid.
    pub open spec fn wf(self) -> bool {
        &&& grid_ok(self.cfg, 0)
        &&& 1 <= self.half_spread <= 3
        &&& 5 <= self.quote_size < 50
        &&& 0 <= self.tolerance <= 1
        &&& self.live_bid matches Some((_, p)) ==> self.cfg.min_price <= p.0 <= top_price(self.cfg)
        &&& self.live_ask matches Some((_, p)) ==> self.cfg.min_price <= p.0 <= top_price(self.cfg)
    }

    /// One tick: when a quote has drifted, cancel and replace both; when the
    /// reference is pinned against a grid edge, sit it out.
    pub open spec fn acts(self, view: BookView, rng: Pcg) -> Acted<MakerModel> {
        let bid = self.want_bid(view);
        let ask = self.want_ask(view);
        if bid >= ask || !(drifted(self.live_bid, bid, self.tolerance as int) || drifted(
            self.live_ask,
            ask,
            self.tolerance as int,
        )) {
            Acted { agent: self, rng, intents: Seq::empty() }
        } else {
            let bid_id = self.ids.id();
            let ask_id = self.ids.step().id();
            let qty = Qty((self.quote_size + rng.below(5)) as u64);
            Acted {
                agent: MakerModel {
                    ids: self.ids.step().step(),
                    live_bid: Some((bid_id, Price(bid as i64))),
                    live_ask: Some((ask_id, Price(ask as i64))),
                    ..self
                },
                rng: rng.next(),
                intents: cancel_of(self.live_bid) + cancel_of(self.live_ask) + seq![
                    Intent::New {
                        order_id: bid_id,
                        side: Side::Bid,
                        price: Price(bid as i64),
                        qty,
                        tif: TimeInForce::Gtc,
                        stp: SelfTradePrevention::CancelResting,
                    },
                    Intent::New {
                        order_id: ask_id,
                        side: Side::Ask,
                        price: Price(ask as i64),
                        qty,
                        tif: TimeInForce::Gtc,
                        stp: SelfTradePrevention::CancelResting,
                    },
                ],
            }
        }
    }
}

/// A market maker.
pub struct MarketMaker {
    ids: IdGen,
    cfg: BookConfig,
    half_spread: i64,
    quote_size: u64,
    /// Requote when |quote center - ref| exceeds this many ticks.
    tolerance: i64,
    live_bid: Option<(OrderId, Price)>,
    live_ask: Option<(OrderId, Price)>,
}

impl View for MarketMaker {
    type V = MakerModel;

    closed spec fn view(&self) -> MakerModel {
        MakerModel {
            ids: self.ids@,
            cfg: self.cfg,
            half_spread: self.half_spread,
            quote_size: self.quote_size,
            tolerance: self.tolerance,
            live_bid: self.live_bid,
            live_ask: self.live_ask,
        }
    }
}

/// A fresh market maker, drawn from the random stream.
pub open spec fn fresh_maker(agent_index: u32, cfg: BookConfig, rng: Pcg) -> MakerModel {
    MakerModel {
        ids: Ids::of_agent(agent_index),
        cfg,
        half_spread: (1 + rng.below(3)) as i64,
        quote_size: (5 + rng.next().below(45)) as u64,
        tolerance: rng.next().next().below(2) as i64,
        live_bid: None,
        live_ask: None,
    }
}

impl MarketMaker {
    /// A market maker with a character drawn from `rng`.
    pub fn new(agent_index: u32, cfg: BookConfig, rng: &mut Pcg32) -> (r: Self)
        ensures
            r@ == fresh_maker(agent_index, cfg, old(rng)@),
            grid_ok(cfg, 0) ==> r@.wf(),
            final(rng)@ == old(rng)@.next().next().next(),
    {
        MarketMaker {
            ids: IdGen::for_agent(agent_index),
            cfg,
            half_spread: 1 + rng.below(3) as i64,
            quote_size: 5 + rng.below(45),
            tolerance: rng.below(2) as i64,  // 0 = twitchy, 1 = calmer
            live_bid: None,
            live_ask: None,
        }
    }

    fn clamp(&self, p: i64) -> (r: Price)
        requires
            grid_ok(self@.cfg, 0),
        ensures
            r.0 == clamped(p as int, self@.cfg.min_price as int, top_price(self@.cfg)),
            self@.cfg.min_price <= r.0 <= top_price(self@.cfg),
    {
        proof {
            lemma_grid(self.cfg);
        }
        Price(clamp_i64(p, self.cfg.min_price, self.cfg.max_price().0))
    }

    /// Whether a quote is missing or too far from where it should be.
    fn drifted(&self, cur: Option<(OrderId, Price)>, want: Price) -> (r: bool)
        requires
            self@.wf(),
            self@.cfg.min_price <= want.0 <= top_price(self@.cfg),
            cur matches Some((_, p)) ==> self@.cfg.min_price <= p.0 <= top_price(self@.cfg),
        ensures
            r == drifted(cur, want.0 as int, self@.tolerance as int),
    {
        match cur {
            None => true,
            Some((_, p)) => {
                let off = if p.0 > want.0 {
                    p.0 - want.0
                } else {
                    want.0 - p.0
                };
                off > self.tolerance
            },
        }
    }
}

impl Agent for MarketMaker {
    open spec fn ready(&self, view: BookView) -> bool {
        &&& self@.wf()
        &&& self@.ids.left(2)
        &&& i64::MIN + 3 <= view.ref_price.0 <= i64::MAX - 3
    }

    fn act(&mut self, view: &BookView, rng: &mut Pcg32, out: &mut Vec<Intent>)
        ensures
            final(self)@ == old(self)@.acts(*view, old(rng)@).agent,
            final(rng)@ == old(self)@.acts(*view, old(rng)@).rng,
            final(out)@ == old(out)@ + old(self)@.acts(*view, old(rng)@).intents,
            final(self)@.wf(),
    {
        let ghost before = out@;
        let r = view.ref_price.0;
        let want_bid = self.clamp(r - self.half_spread);
        let want_ask = self.clamp(r + self.half_spread);
        if want_bid.0 >= want_ask.0 {
            proof {
                assert(before + Seq::<Intent>::empty() =~= before);
            }
            return;  // ref pinned against a grid edge; sit out this tick
        }
        if self.drifted(self.live_bid, want_bid) || self.drifted(self.live_ask, want_ask) {
            let ghost was = self@;
            // Cancel-and-replace both sides. THIS is the cancel storm.
            if let Some((id, _)) = self.live_bid {
                out.push(Intent::Cancel { order_id: id });
            }
            if let Some((id, _)) = self.live_ask {
                out.push(Intent::Cancel { order_id: id });
            }
            let bid_id = self.ids.next();
            let ask_id = self.ids.next();
            let qty = Qty(self.quote_size + rng.below(5));
            out.push(
                Intent::New {
                    order_id: bid_id,
                    side: Side::Bid,
                    price: want_bid,
                    qty,
                    tif: TimeInForce::Gtc,
                    stp: SelfTradePrevention::CancelResting,
                },
            );
            out.push(
                Intent::New {
                    order_id: ask_id,
                    side: Side::Ask,
                    price: want_ask,
                    qty,
                    tif: TimeInForce::Gtc,
                    stp: SelfTradePrevention::CancelResting,
                },
            );
            self.live_bid = Some((bid_id, want_bid));
            self.live_ask = Some((ask_id, want_ask));
            proof {
                let all = was.acts(*view, old(rng)@).intents;
                assert(out@ =~= before + all);
            }
        } else {
            proof {
                assert(before + Seq::<Intent>::empty() =~= before);
            }
        }
    }
}

} // verus!
