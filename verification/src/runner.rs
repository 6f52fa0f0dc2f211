//! The simulation runner: a crowd of agents around an exogenous reference
//! price, one engine, and honest microstructure statistics.
//!
//! Fully deterministic: one PCG32 stream drives everything, agents act in
//! a fixed order, and the runner assigns sequence numbers, so the same
//! seed and the same reference prices produce a byte-identical input log
//! every time.

use crate::adversarial::{fresh_adversarial, Adversarial, AdversarialModel};
use crate::agent::{grid_ok, lemma_grid, top_price, Acted, Agent, BookView, Ids, Intent};
use crate::agreement::in_order;
use crate::book::OrderBook;
use crate::buffer::EventBuffer;
use crate::config::BookConfig;
use crate::events::{InputEvent, OutputEvent};
use crate::hash::book_hash;
use crate::laws::{
    law_buffer_suffices, law_empty_valid, law_never_crosses, law_output_is_paid_for,
    law_replay_in_parts, law_step_valid, law_uncrossed_prices, run,
};
use crate::market_maker::{fresh_maker, MakerModel, MarketMaker};
use crate::model::{best_level, step, BookModel};
use crate::momentum::{fresh_momentum, Momentum, MomentumModel};
use crate::noise::{fresh_noise, Noise, NoiseModel};
use crate::priority::lemma_flat_none;
use crate::rng::{Pcg, Pcg32};
use crate::types::{Price, Side, TraderId};
use vstd::prelude::*;

verus! {

/// What a simulation is made of.
#[derive(Copy, Clone, Debug)]
pub struct SimConfig {
    pub seed: u64,
    /// Stop at the end of the first tick where the log reaches this size
    /// (whole ticks only, so the log can slightly exceed it).
    pub events: usize,
    pub book: BookConfig,
    pub market_makers: u32,
    pub momentum: u32,
    pub noise: u32,
    pub adversarial: u32,
}

impl SimConfig {
    /// How many agents there are.
    pub open spec fn agents(self) -> int {
        self.market_makers + self.momentum + self.noise + self.adversarial
    }

    /// The agents can be numbered, and the book and its grid leave them room
    /// to compute.
    pub open spec fn wf(self) -> bool {
        &&& self.agents() <= u32::MAX
        &&& self.book.wf()
        &&& sim_grid(self.book)
    }
}

impl Default for SimConfig {
    fn default() -> (c: Self)
        ensures
            c.seed == 42,
            c.events == 1_000_000,
            c.book.min_price == 1_000,
            c.book.tick_size == 1,
            c.book.num_levels == 4_096,
            c.book.max_live_orders == 65_536,
            c.market_makers == 20,
            c.momentum == 5,
            c.noise == 10,
            c.adversarial == 2,
            c.wf(),
    {
        SimConfig {
            seed: 42,
            events: 1_000_000,
            book: BookConfig {
                min_price: 1_000,
                tick_size: 1,
                num_levels: 4_096,
                max_live_orders: 65_536,
            },
            market_makers: 20,
            momentum: 5,
            noise: 10,
            adversarial: 2,
        }
    }
}

/// The prices of the grid leave room for what agents add to them.
pub open spec fn sim_grid(cfg: BookConfig) -> bool {
    &&& grid_ok(cfg, 20)
    &&& i64::MIN <= 2 * cfg.min_price
    &&& 2 * top_price(cfg) <= i64::MAX
}

/// Counts of what went in and came out.
#[derive(Copy, Clone, Debug)]
pub struct Stats {
    pub inputs: u64,
    pub news: u64,
    pub cancels: u64,
    pub modifies: u64,
    pub acks: u64,
    pub fills: u64,
    pub cancelled_events: u64,
    pub rejects: u64,
    pub traded_qty: u128,
    pub depth_samples: u64,
    pub depth_sum: u128,
    pub spread_samples: u64,
    pub spread_sum: u128,
}

/// Nothing counted yet.
pub open spec fn no_stats() -> Stats {
    Stats {
        inputs: 0,
        news: 0,
        cancels: 0,
        modifies: 0,
        acks: 0,
        fills: 0,
        cancelled_events: 0,
        rejects: 0,
        traded_qty: 0,
        depth_samples: 0,
        depth_sum: 0,
        spread_samples: 0,
        spread_sum: 0,
    }
}

impl Default for Stats {
    fn default() -> (s: Self)
        ensures
            s == no_stats(),
    {
        Stats {
            inputs: 0,
            news: 0,
            cancels: 0,
            modifies: 0,
            acks: 0,
            fills: 0,
            cancelled_events: 0,
            rejects: 0,
            traded_qty: 0,
            depth_samples: 0,
            depth_sum: 0,
            spread_samples: 0,
            spread_sum: 0,
        }
    }
}

impl Stats {
    /// How many outputs were counted.
    pub open spec fn outputs(self) -> int {
        self.acks + self.fills + self.cancelled_events + self.rejects
    }

    /// The counts after one more input.
    pub open spec fn with_input(self, ev: InputEvent) -> Stats {
        let s = Stats { inputs: (self.inputs + 1) as u64, ..self };
        match ev {
            InputEvent::New { .. } => Stats { news: (self.news + 1) as u64, ..s },
            InputEvent::Cancel { .. } => Stats { cancels: (self.cancels + 1) as u64, ..s },
            InputEvent::Modify { .. } => Stats { modifies: (self.modifies + 1) as u64, ..s },
        }
    }

    /// The counts after one more output.
    pub open spec fn with_output(self, out: OutputEvent) -> Stats {
        match out {
            OutputEvent::Ack { .. } => Stats { acks: (self.acks + 1) as u64, ..self },
            OutputEvent::Fill { qty, .. } => Stats {
                fills: (self.fills + 1) as u64,
                traded_qty: (self.traded_qty + qty.0) as u128,
                ..self
            },
            OutputEvent::Cancelled { .. } => Stats {
                cancelled_events: (self.cancelled_events + 1) as u64,
                ..self
            },
            OutputEvent::Rejected { .. } => Stats { rejects: (self.rejects + 1) as u64, ..self },
        }
    }

    /// The counts after sampling depth and spread.
    pub open spec fn sampled(self, live: nat, bid: Option<Price>, ask: Option<Price>) -> Stats {
        let s = Stats {
            depth_samples: (self.depth_samples + 1) as u64,
            depth_sum: (self.depth_sum + live) as u128,
            ..self
        };
        match (bid, ask) {
            (Some(b), Some(a)) => Stats {
                spread_samples: (self.spread_samples + 1) as u64,
                spread_sum: (self.spread_sum + (a.0 - b.0)) as u128,
                ..s
            },
            _ => s,
        }
    }

    /// The sums cannot outgrow their types before the counts do.
    pub open spec fn wf(self) -> bool {
        &&& self.news + self.cancels + self.modifies == self.inputs
        &&& self.spread_samples <= self.depth_samples
        &&& self.traded_qty <= self.fills * 0xffff_ffff_ffff_ffff
        &&& self.depth_sum <= self.depth_samples * 0xffff_ffff
        &&& self.spread_sum <= self.spread_samples * 0xffff_ffff_ffff_ffff
    }
}

/// One participant of the market.
pub enum Participant {
    Maker(MarketMaker),
    Momentum(Momentum),
    Noise(Noise),
    Adversarial(Adversarial),
}

/// What one participant knows.
pub enum AgentModel {
    Maker(MakerModel),
    Momentum(MomentumModel),
    Noise(NoiseModel),
    Adversarial(AdversarialModel),
}

impl View for Participant {
    type V = AgentModel;

    open spec fn view(&self) -> AgentModel {
        match self {
            Participant::Maker(a) => AgentModel::Maker(a@),
            Participant::Momentum(a) => AgentModel::Momentum(a@),
            Participant::Noise(a) => AgentModel::Noise(a@),
            Participant::Adversarial(a) => AgentModel::Adversarial(a@),
        }
    }
}

impl AgentModel {
    /// One tick of this agent.
    pub open spec fn acts(self, view: BookView, rng: Pcg) -> Acted<AgentModel> {
        match self {
            AgentModel::Maker(m) => {
                let a = m.acts(view, rng);
                Acted { agent: AgentModel::Maker(a.agent), rng: a.rng, intents: a.intents }
            },
            AgentModel::Momentum(m) => {
                let a = m.acts(view, rng);
                Acted { agent: AgentModel::Momentum(a.agent), rng: a.rng, intents: a.intents }
            },
            AgentModel::Noise(m) => {
                let a = m.acts(view, rng);
                Acted { agent: AgentModel::Noise(a.agent), rng: a.rng, intents: a.intents }
            },
            AgentModel::Adversarial(m) => {
                let a = m.acts(view, rng);
                Acted { agent: AgentModel::Adversarial(a.agent), rng: a.rng, intents: a.intents }
            },
        }
    }

    /// The order ids of this agent.
    pub open spec fn ids(self) -> Ids {
        match self {
            AgentModel::Maker(m) => m.ids,
            AgentModel::Momentum(m) => m.ids,
            AgentModel::Noise(m) => m.ids,
            AgentModel::Adversarial(m) => m.ids,
        }
    }

    /// The agent works on the grid of `cfg`, and has drawn no more than `used`
    /// ids.
    pub open spec fn wf(self, cfg: BookConfig, used: int) -> bool {
        &&& self.ids().used <= used
        &&& match self {
            AgentModel::Maker(m) => m.wf() && m.cfg == cfg,
            AgentModel::Momentum(_) => true,
            AgentModel::Noise(m) => m.cfg == cfg,
            AgentModel::Adversarial(m) => m.cfg == cfg && m.pending_cancel.len() <= 8,
        }
    }
}

/// The most that an agent wants in one tick.
pub const MOST_INTENTS: u64 = 16;

/// An agent wants no more than so much in a tick, and draws no more ids than
/// it wants things.
pub(crate) proof fn lemma_acts_bounded(a: AgentModel, cfg: BookConfig, used: int, view: BookView, rng: Pcg)
    requires
        a.wf(cfg, used),
        sim_grid(cfg),
        used + MOST_INTENTS <= u64::MAX,
    ensures
        a.acts(view, rng).intents.len() <= MOST_INTENTS,
        a.acts(view, rng).agent.wf(cfg, used + a.acts(view, rng).intents.len()),
{
    match a {
        AgentModel::Maker(m) => lemma_maker_bounded(m, view, rng),
        AgentModel::Momentum(m) => lemma_momentum_bounded(m, view, rng),
        AgentModel::Noise(m) => lemma_noise_bounded(m, view, rng),
        AgentModel::Adversarial(m) => lemma_adversarial_bounded(m, view, rng),
    }
}

proof fn lemma_maker_bounded(m: MakerModel, view: BookView, rng: Pcg)
    requires
        m.wf(),
        m.ids.used + 2 <= u64::MAX,
    ensures
        m.acts(view, rng).intents.len() <= 4,
        m.acts(view, rng).agent.wf(),
        m.acts(view, rng).agent.cfg == m.cfg,
        m.acts(view, rng).agent.ids.used <= m.ids.used + m.acts(view, rng).intents.len(),
{
}

proof fn lemma_momentum_bounded(m: MomentumModel, view: BookView, rng: Pcg)
    requires
        m.ids.used + 1 <= u64::MAX,
    ensures
        m.acts(view, rng).intents.len() <= 1,
        m.acts(view, rng).agent.ids.used <= m.ids.used + m.acts(view, rng).intents.len(),
{
}

proof fn lemma_noise_bounded(m: NoiseModel, view: BookView, rng: Pcg)
    requires
        m.ids.used + 1 <= u64::MAX,
    ensures
        m.acts(view, rng).intents.len() <= 2,
        m.acts(view, rng).agent.cfg == m.cfg,
        m.acts(view, rng).agent.ids.used <= m.ids.used + m.acts(view, rng).intents.len(),
{
}

proof fn lemma_adversarial_bounded(m: AdversarialModel, view: BookView, rng: Pcg)
    requires
        m.ids.used + 8 <= u64::MAX,
        m.pending_cancel.len() <= 8,
    ensures
        m.acts(view, rng).intents.len() <= MOST_INTENTS,
        m.acts(view, rng).agent.cfg == m.cfg,
        m.acts(view, rng).agent.pending_cancel.len() <= 8,
        m.acts(view, rng).agent.ids.used <= m.ids.used + m.acts(view, rng).intents.len(),
{
    let idle = AdversarialModel { pending_cancel: Seq::empty(), ..m };
    let n = (1 + rng.next().below(8)) as nat;
    lemma_burst_bounded(idle, rng.next().next(), n);
}

proof fn lemma_burst_bounded(m: AdversarialModel, rng: Pcg, n: nat)
    requires
        m.ids.used + n <= u64::MAX,
    ensures
        m.bursts(rng, n).intents.len() == n,
        m.bursts(rng, n).agent.ids.used == m.ids.used + n,
        m.bursts(rng, n).agent.cfg == m.cfg,
        m.bursts(rng, n).agent.pending_cancel.len() <= m.pending_cancel.len() + n,
    decreases n,
{
    if n > 0 {
        lemma_burst_bounded(m, rng, (n - 1) as nat);
    }
}

/// Agents made so far, and where making them left the random stream.
#[verifier::ext_equal]
pub struct Crew {
    pub agents: Seq<AgentModel>,
    pub rng: Pcg,
}

/// The first `n` agents of a simulation, in their fixed order: market makers,
/// momentum traders, noise traders, adversaries.
pub open spec fn crew(sc: SimConfig, n: nat) -> Crew
    decreases n,
{
    if n == 0 {
        Crew { agents: Seq::empty(), rng: Pcg::seeded(sc.seed) }
    } else {
        let before = crew(sc, (n - 1) as nat);
        let i = (n - 1) as u32;
        let r = before.rng;
        if i < sc.market_makers {
            Crew {
                agents: before.agents.push(AgentModel::Maker(fresh_maker(i, sc.book, r))),
                rng: r.next().next().next(),
            }
        } else if i < sc.market_makers + sc.momentum {
            Crew {
                agents: before.agents.push(AgentModel::Momentum(fresh_momentum(i, r))),
                rng: r.next(),
            }
        } else if i < sc.market_makers + sc.momentum + sc.noise {
            Crew {
                agents: before.agents.push(AgentModel::Noise(fresh_noise(i, sc.book, r))),
                rng: r.next(),
            }
        } else {
            Crew {
                agents: before.agents.push(
                    AgentModel::Adversarial(fresh_adversarial(i, sc.book, r)),
                ),
                rng: r.next(),
            }
        }
    }
}

/// The state of a simulation.
#[verifier::ext_equal]
pub struct SimModel {
    pub rng: Pcg,
    pub agents: Seq<AgentModel>,
    pub view: BookView,
    pub seq: u64,
    pub book: BookModel,
    pub stats: Stats,
    pub recent: Seq<(i64, u64)>,
}

/// How many trades a simulation remembers.
pub const RECENT_TRADES: usize = 64;

/// A simulation that has not started.
pub open spec fn fresh_sim(sc: SimConfig, ref_price: Price) -> SimModel {
    let c = crew(sc, sc.agents() as nat);
    SimModel {
        rng: c.rng,
        agents: c.agents,
        view: BookView {
            best_bid: None,
            best_ask: None,
            ref_price,
            last_trade: None,
            live_orders: 0,
        },
        seq: 0,
        book: BookModel::empty(sc.book),
        stats: no_stats(),
        recent: Seq::empty(),
    }
}

/// A simulation and the instructions that led to it.
pub struct Ticked {
    pub sim: SimModel,
    pub log: Seq<InputEvent>,
}

impl SimModel {
    /// One output is taken note of.
    pub open spec fn noted(self, out: OutputEvent) -> SimModel {
        let s = SimModel { stats: self.stats.with_output(out), ..self };
        match out {
            OutputEvent::Fill { price, qty, .. } => {
                let all = self.recent.push((price.0, qty.0));
                SimModel {
                    view: BookView { last_trade: Some(price), ..self.view },
                    recent: if all.len() > RECENT_TRADES {
                        all.remove(0)
                    } else {
                        all
                    },
                    ..s
                }
            },
            _ => s,
        }
    }

    /// Outputs are taken note of, one after the other.
    pub open spec fn noted_all(self, outs: Seq<OutputEvent>) -> SimModel
        decreases outs.len(),
    {
        if outs.len() == 0 {
            self
        } else {
            self.noted_all(outs.drop_last()).noted(outs.last())
        }
    }

    /// The view after a look at the book.
    pub open spec fn looked(self) -> SimModel {
        SimModel {
            view: BookView {
                best_bid: self.book.best_price(Side::Bid),
                best_ask: self.book.best_price(Side::Ask),
                live_orders: self.book.live() as u32,
                ..self.view
            },
            ..self
        }
    }

    /// The instruction that an intent of agent `trader` becomes.
    pub open spec fn event(self, intent: Intent, trader: u32) -> InputEvent {
        intent.into_event((self.seq + 1) as u64, TraderId(trader))
    }

    /// One intent is sequenced and applied.
    pub open spec fn fed(self, intent: Intent, trader: u32) -> SimModel {
        let ev = self.event(intent, trader);
        let r = step(self.book, ev);
        SimModel {
            seq: (self.seq + 1) as u64,
            stats: self.stats.with_input(ev),
            book: r.book,
            ..self
        }.noted_all(r.events).looked()
    }

    /// Intents are sequenced and applied, one after the other.
    pub open spec fn fed_all(self, intents: Seq<Intent>, trader: u32) -> Ticked
        decreases intents.len(),
    {
        if intents.len() == 0 {
            Ticked { sim: self, log: Seq::empty() }
        } else {
            let before = self.fed_all(intents.drop_last(), trader);
            Ticked {
                sim: before.sim.fed(intents.last(), trader),
                log: before.log.push(before.sim.event(intents.last(), trader)),
            }
        }
    }

    /// Agent number `i` acts.
    pub open spec fn agent_acted(self, i: int) -> Ticked {
        let a = self.agents[i].acts(self.view, self.rng);
        SimModel { rng: a.rng, agents: self.agents.update(i, a.agent), ..self }.fed_all(
            a.intents,
            i as u32,
        )
    }

    /// The first `n` agents act, in order.
    pub open spec fn acted(self, n: nat) -> Ticked
        decreases n,
    {
        if n == 0 {
            Ticked { sim: self, log: Seq::empty() }
        } else {
            let before = self.acted((n - 1) as nat);
            let last = before.sim.agent_acted(n - 1);
            Ticked { sim: last.sim, log: before.log + last.log }
        }
    }

    /// One tick: the reference price moves, every agent acts once, and depth
    /// and spread are sampled.
    pub open spec fn ticked(self, ref_price: Price) -> Ticked {
        let t = SimModel { view: BookView { ref_price, ..self.view }, ..self }.acted(
            self.agents.len(),
        );
        let m = t.sim;
        Ticked {
            sim: SimModel {
                stats: m.stats.sampled(m.book.live(), m.view.best_bid, m.view.best_ask),
                ..m
            },
            ..t
        }
    }

    /// The random stream after the twelve outputs that a normal draw takes.
    pub open spec fn drawn(self) -> SimModel {
        SimModel { rng: self.rng.skip(12), ..self }
    }

    /// The book is valid and uncrossed, the view shows it, agents and counts
    /// are consistent with each other.
    pub open spec fn wf(self) -> bool {
        self.market_ok() && self.crew_ok(self.stats.inputs as int)
    }

    /// Every agent is consistent and has drawn no more than `used` ids.
    pub open spec fn crew_ok(self, used: int) -> bool {
        forall|i: int|
            0 <= i < self.agents.len() ==> (#[trigger] self.agents[i]).wf(self.book.cfg, used)
    }

    /// All of it but the agents.
    pub open spec fn market_ok(self) -> bool {
        &&& self.book.wf()
        &&& self.book.uncrossed()
        &&& sim_grid(self.book.cfg)
        &&& self.view.best_bid == self.book.best_price(Side::Bid)
        &&& self.view.best_ask == self.book.best_price(Side::Ask)
        &&& self.view.live_orders == self.book.live()
        &&& self.in_grid(self.view.ref_price)
        &&& self.seq == self.stats.inputs
        &&& self.stats.wf()
        &&& self.stats.outputs() + self.book.live() <= 3 * self.stats.inputs
        &&& self.agents.len() <= u32::MAX
        &&& self.recent.len() <= RECENT_TRADES
    }

    /// A price between the lowest and the highest of the grid.
    pub open spec fn in_grid(self, p: Price) -> bool {
        self.book.cfg.min_price <= p.0 <= top_price(self.book.cfg)
    }

    /// `n` more instructions can be counted.
    pub open spec fn room(self, n: int) -> bool {
        self.stats.inputs + n <= 0x5555_5555_5555_5555
    }
}

/// Taking note of outputs counts them and touches nothing else.
pub(crate) proof fn lemma_noted_all(m: SimModel, outs: Seq<OutputEvent>)
    requires
        m.stats.wf(),
        m.stats.outputs() + outs.len() <= u64::MAX,
        m.recent.len() <= RECENT_TRADES,
    ensures
        ({
            let n = m.noted_all(outs);
            &&& n.stats.wf()
            &&& n.stats.outputs() == m.stats.outputs() + outs.len()
            &&& n.stats.inputs == m.stats.inputs
            &&& n.stats.depth_samples == m.stats.depth_samples
            &&& n.recent.len() <= RECENT_TRADES
            &&& n.rng == m.rng
            &&& n.agents == m.agents
            &&& n.seq == m.seq
            &&& n.book == m.book
            &&& n.view == (BookView { last_trade: n.view.last_trade, ..m.view })
        }),
    decreases outs.len(),
{
    if outs.len() > 0 {
        lemma_noted_all(m, outs.drop_last());
    }
}

/// The best prices of a valid book lie on its grid.
proof fn lemma_best_in_grid(m: BookModel, s: Side)
    requires
        m.wf(),
        m.cfg.num_levels >= 1,
    ensures
        m.best_price(s) matches Some(p) ==> m.cfg.min_price <= p.0 <= top_price(m.cfg),
{
    lemma_flat_none(s, m.side(s));
    if let Some(b) = best_level(s, m.side(s)) {
        assert(m.at(s, b, 0) && m.order(s, b, 0) == m.side(s)[b][0]);
        let top = m.cfg.num_levels - 1;
        m.cfg.law_grid_monotone(0, b);
        m.cfg.law_grid_monotone(b, top);
        if b < top {
            m.cfg.law_grid_monotone(b, top);
        }
        if b > 0 {
            m.cfg.law_grid_monotone(0, b);
        }
    }
}

/// Applying an intent keeps a simulation consistent.
pub(crate) proof fn lemma_fed(m: SimModel, intent: Intent, trader: u32)
    requires
        m.market_ok(),
        m.room(1),
    ensures
        ({
            let n = m.fed(intent, trader);
            let ev = m.event(intent, trader);
            &&& n.market_ok()
            &&& n.stats.inputs == m.stats.inputs + 1
            &&& n.stats.depth_samples == m.stats.depth_samples
            &&& n.agents == m.agents
            &&& n.rng == m.rng
            &&& n.book == step(m.book, ev).book
            &&& n.book.cfg == m.book.cfg
            &&& n.view.ref_price == m.view.ref_price
            &&& ev.seq().0 == m.seq + 1
            &&& n.seq == m.seq + 1
        }),
{
    let ev = m.event(intent, trader);
    let r = step(m.book, ev);
    law_step_valid(m.book, ev);
    law_never_crosses(m.book, ev);
    law_output_is_paid_for(m.book, ev);
    let counted = SimModel {
        seq: (m.seq + 1) as u64,
        stats: m.stats.with_input(ev),
        book: r.book,
        ..m
    };
    lemma_noted_all(counted, r.events);
}

/// Applying intents keeps a simulation consistent, logs what was applied, and
/// leaves the book where that log leads.
pub(crate) proof fn lemma_fed_all(m: SimModel, intents: Seq<Intent>, trader: u32)
    requires
        m.market_ok(),
        m.room(intents.len() as int),
    ensures
        ({
            let t = m.fed_all(intents, trader);
            &&& t.sim.market_ok()
            &&& t.sim.stats.inputs == m.stats.inputs + intents.len()
            &&& t.sim.stats.depth_samples == m.stats.depth_samples
            &&& t.sim.agents == m.agents
            &&& t.sim.rng == m.rng
            &&& t.sim.book.cfg == m.book.cfg
            &&& t.sim.view.ref_price == m.view.ref_price
            &&& t.log.len() == intents.len()
            &&& t.sim.seq == m.seq + intents.len()
            &&& t.sim.book == run(m.book, t.log).book
            &&& forall|k: int|
                0 <= k < t.log.len() ==> (#[trigger] t.log[k]).seq().0 == m.seq + k + 1
        }),
    decreases intents.len(),
{
    if intents.len() > 0 {
        let d = intents.drop_last();
        lemma_fed_all(m, d, trader);
        let before = m.fed_all(d, trader);
        lemma_fed(before.sim, intents.last(), trader);
        let t = m.fed_all(intents, trader);
        assert(t.log.drop_last() =~= before.log);
    }
}

/// One agent's turn keeps a simulation consistent.
pub(crate) proof fn lemma_agent_acted(m: SimModel, i: int)
    requires
        m.wf(),
        0 <= i < m.agents.len(),
        m.room(MOST_INTENTS as int),
    ensures
        ({
            let t = m.agent_acted(i);
            &&& t.sim.wf()
            &&& t.sim.stats.inputs == m.stats.inputs + t.log.len()
            &&& t.sim.stats.depth_samples == m.stats.depth_samples
            &&& t.log.len() <= MOST_INTENTS
            &&& t.sim.agents.len() == m.agents.len()
            &&& t.sim.book.cfg == m.book.cfg
            &&& t.sim.seq == m.seq + t.log.len()
            &&& t.sim.book == run(m.book, t.log).book
            &&& forall|k: int|
                0 <= k < t.log.len() ==> (#[trigger] t.log[k]).seq().0 == m.seq + k + 1
        }),
{
    let a = m.agents[i].acts(m.view, m.rng);
    let cfg = m.book.cfg;
    let used = m.stats.inputs as int;
    lemma_acts_bounded(m.agents[i], cfg, used, m.view, m.rng);
    let u = SimModel { rng: a.rng, agents: m.agents.update(i, a.agent), ..m };
    assert(u.market_ok());
    lemma_fed_all(u, a.intents, i as u32);
    let t = m.agent_acted(i);
    assert forall|j: int| 0 <= j < t.sim.agents.len() implies (#[trigger] t.sim.agents[j]).wf(
        cfg,
        t.sim.stats.inputs as int,
    ) by {
        if j != i {
            assert(m.agents[j].wf(cfg, used));
        }
    }
}

/// The turns of the first `n` agents keep a simulation consistent.
pub(crate) proof fn lemma_acted(m: SimModel, n: nat)
    requires
        m.wf(),
        n <= m.agents.len(),
        m.room(MOST_INTENTS * n),
    ensures
        ({
            let t = m.acted(n);
            &&& t.sim.wf()
            &&& t.sim.stats.inputs == m.stats.inputs + t.log.len()
            &&& t.sim.stats.depth_samples == m.stats.depth_samples
            &&& t.log.len() <= MOST_INTENTS * n
            &&& t.sim.agents.len() == m.agents.len()
            &&& t.sim.book.cfg == m.book.cfg
            &&& t.sim.seq == m.seq + t.log.len()
            &&& t.sim.book == run(m.book, t.log).book
            &&& forall|k: int|
                0 <= k < t.log.len() ==> (#[trigger] t.log[k]).seq().0 == m.seq + k + 1
        }),
    decreases n,
{
    if n > 0 {
        let before = m.acted((n - 1) as nat);
        lemma_acted(m, (n - 1) as nat);
        lemma_agent_acted(before.sim, n - 1);
        let last = before.sim.agent_acted(n - 1);
        law_replay_in_parts(m.book, before.log, last.log);
    }
}

/// A tick keeps a simulation consistent. The log it writes is the whole story:
/// its instructions are numbered one by one from where the simulation stood,
/// and applied to the book before the tick they lead to the book after it.
pub proof fn law_log_tells_the_book(m: SimModel, ref_price: Price)
    requires
        m.wf(),
        m.in_grid(ref_price),
        m.room(MOST_INTENTS * m.agents.len()),
        m.stats.depth_samples < u64::MAX,
    ensures
        ({
            let t = m.ticked(ref_price);
            &&& t.sim.wf()
            &&& t.sim.book == run(m.book, t.log).book
            &&& t.sim.seq == m.seq + t.log.len()
            &&& t.sim.stats.inputs == m.stats.inputs + t.log.len()
            &&& t.sim.stats.news + t.sim.stats.cancels + t.sim.stats.modifies == m.stats.news
                + m.stats.cancels + m.stats.modifies + t.log.len()
            &&& t.sim.recent.len() <= RECENT_TRADES
            &&& t.sim.agents.len() == m.agents.len()
            &&& t.log.len() <= MOST_INTENTS * m.agents.len()
            &&& t.sim.book.cfg == m.book.cfg
            &&& t.sim.stats.depth_samples == m.stats.depth_samples + 1
            &&& in_order(t.log)
            &&& forall|k: int|
                0 <= k < t.log.len() ==> (#[trigger] t.log[k]).seq().0 == m.seq + k + 1
        }),
{
    let start = SimModel { view: BookView { ref_price, ..m.view }, ..m };
    assert forall|i: int| 0 <= i < start.agents.len() implies (#[trigger] start.agents[i]).wf(
        start.book.cfg,
        start.stats.inputs as int,
    ) by {
        assert(m.agents[i].wf(m.book.cfg, m.stats.inputs as int));
    }
    lemma_acted(start, m.agents.len());
    let t = start.acted(m.agents.len());
    let n = t.sim;
    law_uncrossed_prices(n.book);
    lemma_sampled(n.stats, n.book.live(), n.view.best_bid, n.view.best_ask);
    let e = m.ticked(ref_price).sim;
    assert forall|i: int| 0 <= i < e.agents.len() implies (#[trigger] e.agents[i]).wf(
        e.book.cfg,
        e.stats.inputs as int,
    ) by {
        assert(n.agents[i].wf(n.book.cfg, n.stats.inputs as int));
    }
}

pub(crate) proof fn lemma_sampled(s: Stats, live: nat, bid: Option<Price>, ask: Option<Price>)
    requires
        s.wf(),
        s.depth_samples < u64::MAX,
        live <= u32::MAX,
        match (bid, ask) {
            (Some(b), Some(a)) => b.0 < a.0,
            _ => true,
        },
    ensures
        s.sampled(live, bid, ask).wf(),
        s.depth_sum + live <= u128::MAX,
        match (bid, ask) {
            (Some(b), Some(a)) => s.spread_sum + (a.0 - b.0) <= u128::MAX,
            _ => true,
        },
{
}

/// The simulation of a seed and the reference prices fed to it.
pub open spec fn sim_run(m: SimModel, refs: Seq<Price>) -> Ticked
    decreases refs.len(),
{
    if refs.len() == 0 {
        Ticked { sim: m, log: Seq::empty() }
    } else {
        let before = sim_run(m, refs.drop_last());
        let last = before.sim.drawn().ticked(refs.last());
        Ticked { sim: last.sim, log: before.log + last.log }
    }
}

/// Replaying the log of a simulation leads to its book: the log stays exactly
/// consistent with the final state, because only whole ticks are logged.
pub proof fn law_replay_reproduces_sim(m: SimModel, refs: Seq<Price>)
    requires
        m.wf(),
        m.room(MOST_INTENTS * (m.agents.len() * refs.len())),
        m.stats.depth_samples + refs.len() <= u64::MAX,
        forall|k: int| 0 <= k < refs.len() ==> m.in_grid(#[trigger] refs[k]),
    ensures
        ({
            let t = sim_run(m, refs);
            &&& t.sim.wf()
            &&& t.sim.book == run(m.book, t.log).book
            &&& t.sim.book.cfg == m.book.cfg
            &&& t.sim.agents.len() == m.agents.len()
            &&& t.sim.stats.inputs == m.stats.inputs + t.log.len()
            &&& t.sim.seq == m.seq + t.log.len()
            &&& t.log.len() <= MOST_INTENTS * (m.agents.len() * refs.len())
            &&& t.sim.stats.depth_samples == m.stats.depth_samples + refs.len()
            &&& forall|k: int|
                0 <= k < t.log.len() ==> (#[trigger] t.log[k]).seq().0 == m.seq + k + 1
            &&& in_order(t.log)
        }),
    decreases refs.len(),
{
    if refs.len() > 0 {
        let d = refs.drop_last();
        let n = m.agents.len();
        assert(n * refs.len() == n * d.len() + n) by (nonlinear_arith)
            requires
                refs.len() == d.len() + 1,
        ;
        assert forall|k: int| 0 <= k < d.len() implies m.in_grid(#[trigger] d[k]) by {
            assert(d[k] == refs[k]);
        }
        law_replay_reproduces_sim(m, d);
        let before = sim_run(m, d);
        let b = before.sim.drawn();
        assert forall|i: int| 0 <= i < b.agents.len() implies (#[trigger] b.agents[i]).wf(
            b.book.cfg,
            b.stats.inputs as int,
        ) by {
            assert(before.sim.agents[i].wf(before.sim.book.cfg, before.sim.stats.inputs as int));
        }
        assert(m.in_grid(refs[refs.len() - 1]));
        law_log_tells_the_book(b, refs.last());
        law_replay_in_parts(m.book, before.log, b.ticked(refs.last()).log);
    }
}

/// A fresh crew is consistent.
proof fn lemma_crew(sc: SimConfig, n: nat)
    requires
        sc.wf(),
        n <= sc.agents(),
    ensures
        crew(sc, n).agents.len() == n,
        forall|i: int| 0 <= i < n ==> (#[trigger] crew(sc, n).agents[i]).wf(sc.book, 0),
    decreases n,
{
    if n > 0 {
        lemma_crew(sc, (n - 1) as nat);
        lemma_grid(sc.book);
        let c = crew(sc, n);
        let d = crew(sc, (n - 1) as nat);
        assert forall|i: int| 0 <= i < n implies (#[trigger] c.agents[i]).wf(sc.book, 0) by {
            if i < n - 1 {
                assert(c.agents[i] == d.agents[i]);
            }
        }
    }
}

/// The agents stand in a fixed order: first the market makers, then the momentum
/// traders, the noise traders, and the adversaries, as many as are asked for.
/// Every agent has order ids of its own number.
pub proof fn law_crew_in_order(sc: SimConfig, n: nat)
    requires
        n <= sc.agents(),
        sc.agents() <= u32::MAX,
    ensures
        crew(sc, n).agents.len() == n,
        forall|i: int|
            0 <= i < n ==> {
                let a = #[trigger] crew(sc, n).agents[i];
                &&& a is Maker <==> i < sc.market_makers
                &&& a is Momentum <==> sc.market_makers <= i < sc.market_makers + sc.momentum
                &&& a is Noise <==> sc.market_makers + sc.momentum <= i < sc.market_makers
                    + sc.momentum + sc.noise
                &&& a is Adversarial <==> sc.market_makers + sc.momentum + sc.noise <= i
                &&& a.ids() == Ids::of_agent(i as u32)
            },
    decreases n,
{
    if n > 0 {
        law_crew_in_order(sc, (n - 1) as nat);
        let c = crew(sc, n);
        let d = crew(sc, (n - 1) as nat);
        assert forall|i: int| 0 <= i < n implies {
            let a = #[trigger] c.agents[i];
            &&& a is Maker <==> i < sc.market_makers
            &&& a is Momentum <==> sc.market_makers <= i < sc.market_makers + sc.momentum
            &&& a is Noise <==> sc.market_makers + sc.momentum <= i < sc.market_makers
                + sc.momentum + sc.noise
            &&& a is Adversarial <==> sc.market_makers + sc.momentum + sc.noise <= i
            &&& a.ids() == Ids::of_agent(i as u32)
        } by {
            if i < n - 1 {
                assert(c.agents[i] == d.agents[i]);
            }
        }
    }
}

/// A simulation that has not started: an empty book, nothing counted, nothing
/// traded, nothing numbered, and the reference price it was given.
pub proof fn law_fresh_sim_is_blank(sc: SimConfig, ref_price: Price)
    ensures
        ({
            let m = fresh_sim(sc, ref_price);
            &&& m.book == BookModel::empty(sc.book)
            &&& m.stats == (Stats {
                inputs: 0,
                news: 0,
                cancels: 0,
                modifies: 0,
                acks: 0,
                fills: 0,
                cancelled_events: 0,
                rejects: 0,
                traded_qty: 0,
                depth_samples: 0,
                depth_sum: 0,
                spread_samples: 0,
                spread_sum: 0,
            })
            &&& m.recent.len() == 0
            &&& m.seq == 0
            &&& m.view.ref_price == ref_price
            &&& m.view.last_trade is None
            &&& m.view.best_bid is None
            &&& m.view.best_ask is None
            &&& m.view.live_orders == 0
        }),
{
}

/// When a tick is possible: anywhere between the lowest and the highest price of
/// the grid, as long as sixteen instructions of every agent can be counted
/// three times over.
pub proof fn law_when_a_tick_is_possible(m: SimModel, p: Price, n: int)
    ensures
        m.in_grid(p) <==> m.book.cfg.min_price <= p.0 <= m.book.cfg.min_price + (
        m.book.cfg.num_levels - 1) * m.book.cfg.tick_size,
        m.room(MOST_INTENTS * n) <==> 3 * (m.stats.inputs + 16 * n) <= u64::MAX,
{
}

/// Same seed, same market: two simulations of one configuration, ticked along
/// the same reference prices, write the same log, count the same, and end in
/// the same book; and what they draw for the next price is the same.
pub proof fn law_same_seed_same_market(
    sc: SimConfig,
    ref_price: Price,
    a: Sim,
    b: Sim,
    refs: Seq<Price>,
)
    requires
        a.model() == fresh_sim(sc, ref_price),
        b.model() == fresh_sim(sc, ref_price),
    ensures
        ({
            let x = sim_run(a.model(), refs);
            let y = sim_run(b.model(), refs);
            &&& x.log == y.log
            &&& x.sim.stats == y.sim.stats
            &&& book_hash(x.sim.book) == book_hash(y.sim.book)
            &&& forall|i: nat| #[trigger] x.sim.rng.skip(i).bits() == y.sim.rng.skip(i).bits()
        }),
{
}

/// Between the two states lies one tick of `n` instructions: each was counted
/// once as an input and once by its sort, the depth was sampled once, and the
/// list of trades is short.
pub open spec fn one_tick_counted(was: SimModel, now: SimModel, n: int) -> bool {
    &&& now.stats.inputs == was.stats.inputs + n
    &&& now.stats.news + now.stats.cancels + now.stats.modifies == was.stats.news
        + was.stats.cancels + was.stats.modifies + n
    &&& now.stats.depth_samples == was.stats.depth_samples + 1
    &&& now.recent.len() <= RECENT_TRADES
}

/// From its `from`th entry on, the log is numbered one by one, starting after
/// `inputs`.
pub open spec fn numbered_on(log: Seq<InputEvent>, from: nat, inputs: u64) -> bool {
    forall|k: int|
        0 <= k < log.len() - from ==> (#[trigger] log[from + k]).seq().0 == inputs + k + 1
}

/// What every tick does, and that it is the same for everyone: of two
/// simulations of one configuration that were ticked along the same reference
/// prices, each logs as many instructions as it counts, numbered one by one,
/// samples once, and keeps its list of trades short; and both log the same
/// instructions and end in the same book.
pub proof fn law_every_tick(
    sc: SimConfig,
    start: Price,
    refs: Seq<Price>,
    next: Price,
    a: Sim,
    b: Sim,
)
    requires
        sc.wf(),
        fresh_sim(sc, start).in_grid(start),
        fresh_sim(sc, start).in_grid(next),
        forall|k: int| 0 <= k < refs.len() ==> fresh_sim(sc, start).in_grid(#[trigger] refs[k]),
        fresh_sim(sc, start).room(MOST_INTENTS * (sc.agents() * (refs.len() + 1))),
        refs.len() < u64::MAX,
        a.model() == sim_run(fresh_sim(sc, start), refs).sim.drawn(),
        b.model() == sim_run(fresh_sim(sc, start), refs).sim.drawn(),
    ensures
        ({
            let was = a.model();
            let x = a.model().ticked(next);
            let y = b.model().ticked(next);
            &&& one_tick_counted(was, x.sim, x.log.len() as int)
            &&& numbered_on(x.log, 0, was.stats.inputs)
            &&& y.log == x.log
            &&& y.sim == x.sim
            &&& book_hash(y.sim.book) == book_hash(x.sim.book)
        }),
{
    let m = fresh_sim(sc, start);
    let n = m.agents.len();
    law_fresh_sim_valid(sc, start);
    assert(n * (refs.len() + 1) == n * refs.len() + n) by (nonlinear_arith);
    law_replay_reproduces_sim(m, refs);
    let s = sim_run(m, refs).sim;
    let d = s.drawn();
    assert forall|i: int| 0 <= i < d.agents.len() implies (#[trigger] d.agents[i]).wf(
        d.book.cfg,
        d.stats.inputs as int,
    ) by {
        assert(s.agents[i].wf(s.book.cfg, s.stats.inputs as int));
    }
    law_log_tells_the_book(d, next);
}

/// A simulation that has not started is consistent.
pub proof fn law_fresh_sim_valid(sc: SimConfig, ref_price: Price)
    requires
        sc.wf(),
        sc.book.min_price <= ref_price.0 <= top_price(sc.book),
    ensures
        fresh_sim(sc, ref_price).wf(),
        fresh_sim(sc, ref_price).agents.len() == sc.agents(),
{
    let m = fresh_sim(sc, ref_price);
    law_empty_valid(sc.book);
    lemma_crew(sc, sc.agents() as nat);
    lemma_flat_none(Side::Bid, m.book.bids);
    lemma_flat_none(Side::Ask, m.book.asks);
}

/// A steppable simulation. One tick = the reference price moves and every
/// agent acts once.
pub struct Sim {
    rng: Pcg32,
    agents: Vec<Participant>,
    view: BookView,
    intents: Vec<Intent>,
    seq: u64,
    pub book: OrderBook,
    buf: EventBuffer,
    pub stats: Stats,
    /// Most recent fills (price, qty), newest last. Bounded; for display.
    pub recent_trades: Vec<(i64, u64)>,
}

impl Sim {
    /// The state of the simulation.
    pub closed spec fn model(&self) -> SimModel {
        SimModel {
            rng: self.rng@,
            agents: self.agents@.map_values(|a: Participant| a@),
            view: self.view,
            seq: self.seq,
            book: self.book@,
            stats: self.stats,
            recent: self.recent_trades@,
        }
    }
}

impl Sim {
    /// The engine, the buffer and the state are consistent.
    pub closed spec fn wf(&self) -> bool {
        &&& self.model().wf()
        &&& self.engine_ok()
    }

    closed spec fn engine_ok(&self) -> bool {
        &&& self.book.wf()
        &&& self.buf.wf()
        &&& self.buf.limit() >= self.book@.cfg.max_live_orders + 8
    }

    /// The state is what the fields hold.
    proof fn law_state_is_the_fields(&self)
        ensures
            self.model().stats == self.stats,
            self.model().recent == self.recent_trades@,
            self.model().view == self.view,
            self.model().seq == self.seq,
            self.model().book == self.book@,
            self.model().rng == self.rng@,
            self.model().agents.len() == self.agents@.len(),
            forall|i: int|
                0 <= i < self.agents@.len() ==> #[trigger] self.model().agents[i]
                    == self.agents@[i]@,
    {
    }

    /// A consistent simulation has a consistent state.
    pub proof fn lemma_model(&self)
        requires
            self.wf(),
        ensures
            self.model().wf(),
    {
    }

    /// A simulation of agents drawn from the seed, around `ref_price`.
    pub fn new(sc: SimConfig, ref_price: Price) -> (s: Self)
        requires
            sc.wf(),
            sc.book.min_price <= ref_price.0 <= top_price(sc.book),
        ensures
            s.wf(),
            s.model() == fresh_sim(sc, ref_price),
    {
        let mut rng = Pcg32::new(sc.seed);
        let cfg = sc.book;
        proof {
            lemma_grid(cfg);
        }
        let first_momentum = sc.market_makers;
        let first_noise = first_momentum + sc.momentum;
        let first_adversarial = first_noise + sc.noise;
        let total = first_adversarial + sc.adversarial;
        // Agents in a fixed, deterministic order. TraderId = position.
        let mut agents: Vec<Participant> = Vec::new();
        let mut i: u32 = 0;
        proof {
            assert(agents@.map_values(|a: Participant| a@) =~= crew(sc, 0).agents);
        }
        while i < total
            invariant
                sc.wf(),
                cfg == sc.book,
                first_momentum == sc.market_makers,
                first_noise == sc.market_makers + sc.momentum,
                first_adversarial == sc.market_makers + sc.momentum + sc.noise,
                total == sc.agents(),
                i <= total,
                agents@.len() == i,
                agents@.map_values(|a: Participant| a@) == crew(sc, i as nat).agents,
                rng@ == crew(sc, i as nat).rng,
            decreases total - i,
        {
            let ghost before = agents@;
            let a = if i < first_momentum {
                Participant::Maker(MarketMaker::new(i, cfg, &mut rng))
            } else if i < first_noise {
                Participant::Momentum(Momentum::new(i, &mut rng))
            } else if i < first_adversarial {
                Participant::Noise(Noise::new(i, cfg, &mut rng))
            } else {
                Participant::Adversarial(Adversarial::new(i, cfg, &mut rng))
            };
            agents.push(a);
            i += 1;
            proof {
                assert(agents@.map_values(|a: Participant| a@) =~= before.map_values(
                    |a: Participant| a@,
                ).push(a@));
            }
        }
        let s = Sim {
            rng,
            agents,
            view: BookView {
                best_bid: None,
                best_ask: None,
                ref_price,
                last_trade: None,
                live_orders: 0,
            },
            intents: Vec::new(),
            seq: 0,
            book: OrderBook::new(cfg),
            buf: EventBuffer::for_book(&cfg),
            stats: Stats::default(),
            recent_trades: Vec::new(),
        };
        proof {
            assert(s.model() =~= fresh_sim(sc, ref_price));
            law_fresh_sim_valid(sc, ref_price);
        }
        s
    }

    /// What the agents see.
    pub fn view(&self) -> (v: &BookView)
        ensures
            *v == self.model().view,
    {
        &self.view
    }

    /// The counts so far.
    pub(crate) fn stats(&self) -> (s: Stats)
        ensures
            s == self.model().stats,
    {
        self.stats
    }

    /// The hash of the book.
    pub fn state_hash(&self) -> (h: u64)
        requires
            self.wf(),
        ensures
            h == book_hash(self.model().book),
    {
        self.book.state_hash()
    }

    /// Whether a tick at `ref_price` is possible: the price is on the grid,
    /// and the counts have room for what the agents may want.
    pub fn can_tick(&self, ref_price: Price) -> (r: bool)
        requires
            self.wf(),
        ensures
            r <==> {
                &&& self.model().in_grid(ref_price)
                &&& self.model().room(MOST_INTENTS * self.model().agents.len())
                &&& self.model().stats.depth_samples < u64::MAX
            },
    {
        let cfg = self.book.config();
        proof {
            lemma_grid(*cfg);
        }
        let most = MOST_INTENTS * self.agents.len() as u64;
        cfg.min_price <= ref_price.0 && ref_price.0 <= cfg.max_price().0 && self.stats.inputs
            <= 0x5555_5555_5555_5555 - most && self.stats.depth_samples < u64::MAX
    }

    /// Twelve outputs of the random stream: what the reference price process
    /// draws before every tick.
    pub fn draw(&mut self) -> (r: [u32; 12])
        requires
            old(self).wf(),
        ensures
            final(self).wf(),
            final(self).model() == old(self).model().drawn(),
            forall|i: int| 0 <= i < 12 ==> #[trigger] r@[i] == old(self).model().rng.skip(i as nat).bits(),
    {
        let ghost before = self.model();
        let r = self.rng.twelve();
        proof {
            assert(self.model() =~= before.drawn());
            assert forall|i: int| 0 <= i < self.model().agents.len() implies (
            #[trigger] self.model().agents[i]).wf(self.model().book.cfg, self.model().stats.inputs as int) by {
                assert(before.agents[i].wf(before.book.cfg, before.stats.inputs as int));
            }
        }
        r
    }

    /// One simulation tick at the reference price `ref_price`. Input events
    /// generated this tick are appended to `log`. Returns events applied.
    pub fn tick(&mut self, ref_price: Price, log: &mut Vec<InputEvent>) -> (applied: u64)
        requires
            old(self).wf(),
            old(self).model().in_grid(ref_price),
            old(self).model().room(MOST_INTENTS * old(self).model().agents.len()),
            old(self).model().stats.depth_samples < u64::MAX,
        ensures
            final(self).wf(),
            final(self).model() == old(self).model().ticked(ref_price).sim,
            final(log)@ == old(log)@ + old(self).model().ticked(ref_price).log,
            applied == old(self).model().ticked(ref_price).log.len(),
            one_tick_counted(old(self).model(), final(self).model(), applied as int),
            numbered_on(final(log)@, old(log)@.len(), old(self).model().stats.inputs),
    {
        let ghost was = self.model();
        let ghost log0 = log@;
        proof {
            law_log_tells_the_book(was, ref_price);
        }
        let inputs = self.stats.inputs;
        self.view.ref_price = ref_price;
        let ghost start = self.model();
        proof {
            assert(start =~= SimModel { view: BookView { ref_price, ..was.view }, ..was });
            assert forall|i: int| 0 <= i < start.agents.len() implies (
            #[trigger] start.agents[i]).wf(start.book.cfg, start.stats.inputs as int) by {
                assert(was.agents[i].wf(was.book.cfg, was.stats.inputs as int));
            }
            assert(log0 + start.acted(0).log =~= log0);
        }
        let n = self.agents.len();
        let mut i: usize = 0;
        while i < n
            invariant
                i <= n,
                n == start.agents.len(),
                start.wf(),
                start.room(MOST_INTENTS * n),
                self.engine_ok(),
                self.model() == start.acted(i as nat).sim,
                log@ == log0 + start.acted(i as nat).log,
            decreases n - i,
        {
            proof {
                lemma_acted(start, i as nat);
                lemma_acted(start, (i + 1) as nat);
            }
            self.turn(i, log);
            i += 1;
            proof {
                assert(log@ =~= log0 + start.acted(i as nat).log);
            }
        }
        let ghost end = self.model();
        proof {
            lemma_acted(start, n as nat);
            law_uncrossed_prices(end.book);
            lemma_sampled(end.stats, end.book.live(), end.view.best_bid, end.view.best_ask);
        }
        let applied = self.stats.inputs - inputs;

        // Sample microstructure once per tick.
        let live = self.book.live_count();
        self.stats.depth_samples += 1;
        self.stats.depth_sum += live as u128;
        if let (Some(b), Some(a)) = (self.view.best_bid, self.view.best_ask) {
            let (high, low) = (a.0 as i128, b.0 as i128);
            self.stats.spread_samples += 1;
            self.stats.spread_sum += (high - low) as u128;
        }
        proof {
            assert(self.model() =~= was.ticked(ref_price).sim);
        }
        applied
    }

    /// Agent number `i` acts, and what it wants is applied.
    fn turn(&mut self, i: usize, log: &mut Vec<InputEvent>)
        requires
            old(self).engine_ok(),
            old(self).model().wf(),
            i < old(self).model().agents.len(),
            old(self).model().room(MOST_INTENTS as int),
        ensures
            final(self).engine_ok(),
            final(self).model() == old(self).model().agent_acted(i as int).sim,
            final(log)@ == old(log)@ + old(self).model().agent_acted(i as int).log,
    {
        let ghost was = self.model();
        let ghost log0 = log@;
        let ghost acted = was.agents[i as int].acts(was.view, was.rng);
        proof {
            assert(was.agents[i as int] == self.agents@[i as int]@);
            lemma_acts_bounded(
                was.agents[i as int],
                was.book.cfg,
                was.stats.inputs as int,
                was.view,
                was.rng,
            );
            lemma_ready(was, i as int);
        }
        self.intents.clear();
        match &mut self.agents[i] {
            Participant::Maker(a) => a.act(&self.view, &mut self.rng, &mut self.intents),
            Participant::Momentum(a) => a.act(&self.view, &mut self.rng, &mut self.intents),
            Participant::Noise(a) => a.act(&self.view, &mut self.rng, &mut self.intents),
            Participant::Adversarial(a) => a.act(&self.view, &mut self.rng, &mut self.intents),
        }
        let ghost ready = self.model();
        let ghost wanted = self.intents@;
        proof {
            assert(Seq::<Intent>::empty() + acted.intents =~= acted.intents);
            assert(wanted == acted.intents);
            assert(self.agents@.map_values(|a: Participant| a@) =~= was.agents.update(
                i as int,
                acted.agent,
            ));
            assert(ready =~= SimModel {
                rng: acted.rng,
                agents: was.agents.update(i as int, acted.agent),
                ..was
            });
            assert(log0 + ready.fed_all(wanted.take(0), i as u32).log =~= log0);
        }
        let n = self.intents.len();
        let mut k: usize = 0;
        while k < n
            invariant
                k <= n == wanted.len(),
                n <= MOST_INTENTS,
                self.intents@ == wanted,
                ready.market_ok(),
                ready.room(n as int),
                i <= u32::MAX,
                self.engine_ok(),
                self.model() == ready.fed_all(wanted.take(k as int), i as u32).sim,
                log@ == log0 + ready.fed_all(wanted.take(k as int), i as u32).log,
            decreases n - k,
        {
            let intent = self.intents[k];
            proof {
                assert(wanted.take(k + 1).drop_last() =~= wanted.take(k as int));
                lemma_fed_all(ready, wanted.take(k as int), i as u32);
            }
            self.feed(intent, i as u32, log);
            k += 1;
            proof {
                assert(log@ =~= log0 + ready.fed_all(wanted.take(k as int), i as u32).log);
            }
        }
        proof {
            assert(wanted.take(n as int) =~= wanted);
        }
    }

    /// Sequence one intent, log it, apply it, and look at the result.
    fn feed(&mut self, intent: Intent, trader: u32, log: &mut Vec<InputEvent>)
        requires
            old(self).engine_ok(),
            old(self).model().market_ok(),
            old(self).model().room(1),
        ensures
            final(self).engine_ok(),
            final(self).intents == old(self).intents,
            final(self).model() == old(self).model().fed(intent, trader),
            final(log)@ == old(log)@.push(old(self).model().event(intent, trader)),
    {
        let ghost was = self.model();
        self.seq += 1;
        let ev = intent.into_event(self.seq, TraderId(trader));
        log.push(ev);
        self.stats.inputs += 1;
        match ev {
            InputEvent::New { .. } => {
                self.stats.news += 1;
            },
            InputEvent::Cancel { .. } => {
                self.stats.cancels += 1;
            },
            InputEvent::Modify { .. } => {
                self.stats.modifies += 1;
            },
        }
        proof {
            law_step_valid(was.book, ev);
            law_output_is_paid_for(was.book, ev);
            law_buffer_suffices(was.book, ev, self.buf.limit());
        }
        self.buf.clear();
        self.book.apply(ev, &mut self.buf);
        let ghost outs = step(was.book, ev).events;
        let ghost counted = self.model();
        proof {
            assert(counted =~= SimModel {
                seq: (was.seq + 1) as u64,
                stats: was.stats.with_input(ev),
                book: step(was.book, ev).book,
                ..was
            });
            assert(counted.noted_all(outs.take(0)) =~= counted);
        }
        let n = self.buf.len();
        let mut k: usize = 0;
        while k < n
            invariant
                k <= n == outs.len(),
                self.buf@ == outs,
                self.engine_ok(),
                self.intents == old(self).intents,
                counted.stats.wf(),
                counted.recent.len() <= RECENT_TRADES,
                counted.stats.outputs() + outs.len() <= u64::MAX,
                self.model() == counted.noted_all(outs.take(k as int)),
            decreases n - k,
        {
            proof {
                assert(outs.take(k + 1).drop_last() =~= outs.take(k as int));
                lemma_noted_all(counted, outs.take(k as int));
            }
            let out = self.buf.as_slice()[k];
            self.note(out);
            k += 1;
        }
        proof {
            assert(outs.take(n as int) =~= outs);
            lemma_noted_all(counted, outs);
        }
        self.view.best_bid = self.book.best_bid();
        self.view.best_ask = self.book.best_ask();
        self.view.live_orders = self.book.live_count();
        proof {
            assert(self.model() =~= was.fed(intent, trader));
        }
    }

    /// Take note of one output.
    fn note(&mut self, out: OutputEvent)
        requires
            old(self).engine_ok(),
            old(self).model().stats.wf(),
            old(self).model().stats.outputs() < u64::MAX,
            old(self).model().recent.len() <= RECENT_TRADES,
        ensures
            final(self).engine_ok(),
            final(self).intents == old(self).intents,
            final(self).buf == old(self).buf,
            final(self).model() == old(self).model().noted(out),
    {
        let ghost was = self.model();
        match out {
            OutputEvent::Ack { .. } => {
                self.stats.acks += 1;
            },
            OutputEvent::Fill { price, qty, .. } => {
                self.stats.fills += 1;
                self.stats.traded_qty += qty.0 as u128;
                self.view.last_trade = Some(price);
                self.recent_trades.push((price.0, qty.0));
                if self.recent_trades.len() > RECENT_TRADES {
                    let _ = self.recent_trades.remove(0);
                }
            },
            OutputEvent::Cancelled { .. } => {
                self.stats.cancelled_events += 1;
            },
            OutputEvent::Rejected { .. } => {
                self.stats.rejects += 1;
            },
        }
        proof {
            assert(self.model() =~= was.noted(out));
        }
    }
}

/// Every agent of a consistent simulation can act.
proof fn lemma_ready(m: SimModel, i: int)
    requires
        m.wf(),
        0 <= i < m.agents.len(),
        m.room(MOST_INTENTS as int),
    ensures
        m.view.mid_fits(),
        i64::MIN + 20 <= m.view.ref_price.0 <= i64::MAX - 20,
        m.view.middle() matches Some(p) ==> i64::MIN + 20 <= p.0 <= i64::MAX - 20,
        m.view.best_ask matches Some(a) ==> a.0 <= i64::MAX - 3,
        m.view.best_bid matches Some(b) ==> b.0 >= i64::MIN + 3,
        grid_ok(m.book.cfg, 0),
        m.agents[i].wf(m.book.cfg, m.stats.inputs as int),
        m.agents[i].ids().left(MOST_INTENTS as int),
{
    lemma_grid(m.book.cfg);
    lemma_best_in_grid(m.book, Side::Bid);
    lemma_best_in_grid(m.book, Side::Ask);
    assert(m.agents[i].wf(m.book.cfg, m.stats.inputs as int));
}

} // verus!
