//! Driving a simulation to completion.
//!
//! The reference price moves by floating point, which stays outside. What is
//! decided between two moves is here: whether another tick is wanted, what
//! random numbers the next move draws, and what the finished run amounts to.

use crate::agent::top_price;
use crate::config::BookConfig;
use crate::events::InputEvent;
use crate::hash::book_hash;
use crate::laws::{law_replay_in_parts, run};
use crate::model::BookModel;
use crate::runner::{
    fresh_sim, law_log_tells_the_book, Sim, SimConfig, SimModel, Stats, MOST_INTENTS,
};
use crate::types::Price;
use vstd::prelude::*;

verus! {

/// What a finished simulation leaves.
pub struct SimResult {
    pub log: Vec<InputEvent>,
    pub stats: Stats,
    pub final_state_hash: u64,
}

/// A simulation on its way to the wanted number of instructions.
///
/// Whole ticks only: the log may slightly exceed that number, but it stays
/// exactly consistent with the final book and counts.
pub struct SimRun {
    sim: Sim,
    log: Vec<InputEvent>,
    events: usize,
    book: BookConfig,
}

impl SimConfig {
    /// Whether a simulation can be made of this.
    pub fn is_usable(&self) -> (r: bool)
        ensures
            r == self.wf(),
    {
        let agents = self.market_makers as u64 + self.momentum as u64 + self.noise as u64
            + self.adversarial as u64;
        if agents > u32::MAX as u64 || !self.book.is_usable() || self.book.num_levels == 0 {
            return false;
        }
        let (low, tick, steps) = (
            self.book.min_price as i128,
            self.book.tick_size as i128,
            (self.book.num_levels - 1) as i128,
        );
        proof {
            assert(0 <= steps * tick <= 0xffff_ffff * 0x7fff_ffff_ffff_ffff) by (nonlinear_arith)
                requires
                    0 <= steps <= 0xffff_ffff,
                    0 <= tick <= 0x7fff_ffff_ffff_ffff,
            ;
        }
        let span = steps * tick;
        let top = low + span;
        let (floor, ceiling) = (i64::MIN as i128, i64::MAX as i128);
        span <= ceiling && floor + 20 <= low && top <= ceiling - 20 && floor <= 2 * low && 2 * top
            <= ceiling
    }
}

/// Which configurations can be simulated: agents that can be numbered, a book
/// that can be made, and a grid with a level whose prices can be doubled and
/// have 20 ticks to spare.
pub proof fn law_usable_simulations(sc: SimConfig)
    ensures
        ({
            let top = sc.book.min_price + (sc.book.num_levels - 1) * sc.book.tick_size;
            sc.wf() <==> {
                &&& sc.market_makers + sc.momentum + sc.noise + sc.adversarial <= u32::MAX
                &&& sc.book.tick_size >= 1
                &&& sc.book.max_live_orders < u32::MAX
                &&& sc.book.max_live_orders <= usize::MAX / 4
                &&& sc.book.num_levels >= 1
                &&& (sc.book.num_levels - 1) * sc.book.tick_size <= i64::MAX
                &&& i64::MIN + 20 <= sc.book.min_price
                &&& top <= i64::MAX - 20
                &&& i64::MIN <= 2 * sc.book.min_price
                &&& 2 * top <= i64::MAX
            }
        }),
{
}

impl SimRun {
    /// The state of the simulation.
    pub closed spec fn sim(&self) -> SimModel {
        self.sim.model()
    }

    /// Every instruction so far.
    pub closed spec fn log(&self) -> Seq<InputEvent> {
        self.log@
    }

    /// How many instructions are wanted.
    pub closed spec fn events(&self) -> usize {
        self.events
    }

    /// The book's configuration.
    pub closed spec fn book(&self) -> BookConfig {
        self.book
    }

    /// The simulation is consistent, and its log tells its book.
    pub closed spec fn wf(&self) -> bool {
        &&& self.sim.wf()
        &&& self.sim().book.cfg == self.book
        &&& self.sim().book == run(BookModel::empty(self.book), self.log@).book
        &&& self.sim().stats.inputs == self.log@.len()
    }

    /// A run of agents drawn from the seed, around `ref_price`.
    pub fn new(sc: SimConfig, ref_price: Price) -> (r: Self)
        requires
            sc.wf(),
            sc.book.min_price <= ref_price.0 <= top_price(sc.book),
        ensures
            r.wf(),
            r.sim() == fresh_sim(sc, ref_price),
            r.log() == Seq::<InputEvent>::empty(),
            r.events() == sc.events,
            r.book() == sc.book,
    {
        SimRun {
            sim: Sim::new(sc, ref_price),
            log: Vec::new(),
            events: sc.events,
            book: sc.book,
        }
    }

    /// The random numbers of the next move of the reference price, or nothing
    /// once the log has reached the wanted size.
    pub fn next(&mut self) -> (r: Option<[u32; 12]>)
        requires
            old(self).wf(),
        ensures
            final(self).wf(),
            final(self).log() == old(self).log(),
            final(self).events() == old(self).events(),
            final(self).book() == old(self).book(),
            r is None <==> old(self).log().len() >= old(self).events(),
            r is None ==> *final(self) == *old(self),
            r matches Some(draws) ==> {
                &&& final(self).sim() == old(self).sim().drawn()
                &&& forall|i: int|
                    0 <= i < 12 ==> #[trigger] draws@[i] == old(self).sim().rng.skip(
                        i as nat,
                    ).bits()
            },
    {
        if self.log.len() < self.events {
            Some(self.sim.draw())
        } else {
            None
        }
    }

    /// One tick at the reference price `ref_price`. Refused, with nothing
    /// changed, off the grid and where the counts could overflow.
    pub fn tick(&mut self, ref_price: Price) -> (r: bool)
        requires
            old(self).wf(),
        ensures
            final(self).wf(),
            final(self).events() == old(self).events(),
            final(self).book() == old(self).book(),
            r <==> {
                &&& old(self).sim().in_grid(ref_price)
                &&& old(self).sim().room(MOST_INTENTS * old(self).sim().agents.len())
                &&& old(self).sim().stats.depth_samples < u64::MAX
            },
            !r ==> *final(self) == *old(self),
            r ==> {
                let t = old(self).sim().ticked(ref_price);
                &&& final(self).sim() == t.sim
                &&& final(self).log() == old(self).log() + t.log
            },
    {
        if !self.sim.can_tick(ref_price) {
            return false;
        }
        let ghost before = self.sim.model();
        let ghost log0 = self.log@;
        proof {
            self.sim.lemma_model();
            law_log_tells_the_book(before, ref_price);
            law_replay_in_parts(
                BookModel::empty(self.book),
                log0,
                before.ticked(ref_price).log,
            );
        }
        self.sim.tick(ref_price, &mut self.log);
        true
    }

    /// What the run amounts to. Applying the log to an empty book leads to
    /// the state that the hash is of.
    pub fn finish(self) -> (r: SimResult)
        requires
            self.wf(),
        ensures
            r.log@ == self.log(),
            r.stats == self.sim().stats,
            r.final_state_hash == book_hash(self.sim().book),
            r.final_state_hash == book_hash(run(BookModel::empty(self.book()), r.log@).book),
            r.stats.inputs == r.log@.len(),
    {
        let final_state_hash = self.sim.state_hash();
        SimResult { stats: self.sim.stats(), final_state_hash, log: self.log }
    }
}

} // verus!
