//! The books that a simulation keeps about itself: what it counts is what went
//! in and came out, and the trades it remembers are the latest ones.

use crate::agent::{BookView, Intent};
use crate::events::{InputEvent, OutputEvent};
use crate::laws::{law_output_is_paid_for, law_replay_in_parts, law_step_valid, run};
use crate::model::step;
use crate::rng::Pcg;
use crate::runner::{
    lemma_acted, lemma_acts_bounded, lemma_agent_acted, lemma_fed_all, lemma_noted_all, SimModel,
    MOST_INTENTS,
};
use crate::types::{Price, Side};
use vstd::prelude::*;

verus! {

/// The trades that events report, in their order: price and lots.
pub open spec fn trades_of(outs: Seq<OutputEvent>) -> Seq<(i64, u64)>
    decreases outs.len(),
{
    if outs.len() == 0 {
        Seq::empty()
    } else {
        match outs.last() {
            OutputEvent::Fill { price, qty, .. } => trades_of(outs.drop_last()).push(
                (price.0, qty.0),
            ),
            _ => trades_of(outs.drop_last()),
        }
    }
}

/// The lots of a list of trades.
pub open spec fn lots_of(trades: Seq<(i64, u64)>) -> nat
    decreases trades.len(),
{
    if trades.len() == 0 {
        0
    } else {
        lots_of(trades.drop_last()) + trades.last().1 as nat
    }
}

/// The latest 64 trades of a history, or all of it where it is shorter.
pub open spec fn newest(trades: Seq<(i64, u64)>) -> Seq<(i64, u64)> {
    if trades.len() <= 64 {
        trades
    } else {
        trades.skip(trades.len() - 64)
    }
}

/// Acknowledgements.
pub open spec fn is_ack() -> spec_fn(OutputEvent) -> bool {
    |e: OutputEvent| e is Ack
}

/// Ends of orders.
pub open spec fn is_cancelled() -> spec_fn(OutputEvent) -> bool {
    |e: OutputEvent| e is Cancelled
}

/// Refusals.
pub open spec fn is_rejected() -> spec_fn(OutputEvent) -> bool {
    |e: OutputEvent| e is Rejected
}

/// New orders.
pub open spec fn is_new() -> spec_fn(InputEvent) -> bool {
    |e: InputEvent| e is New
}

/// Cancels.
pub open spec fn is_cancel() -> spec_fn(InputEvent) -> bool {
    |e: InputEvent| e is Cancel
}

/// Modifies.
pub open spec fn is_modify() -> spec_fn(InputEvent) -> bool {
    |e: InputEvent| e is Modify
}

/// Between two states came out `outs`: each event was counted by its sort, the
/// lots of the trades were added up, the last trade is the latest of them, and
/// the trades remembered are the latest of all.
pub open spec fn tells_outputs(was: SimModel, now: SimModel, outs: Seq<OutputEvent>) -> bool {
    let trades = trades_of(outs);
    &&& now.recent == newest(was.recent + trades)
    &&& now.view.last_trade == if trades.len() == 0 {
        was.view.last_trade
    } else {
        Some(Price(trades.last().0))
    }
    &&& now.stats.acks == was.stats.acks + outs.filter(is_ack()).len()
    &&& now.stats.fills == was.stats.fills + trades.len()
    &&& now.stats.cancelled_events == was.stats.cancelled_events + outs.filter(is_cancelled()).len()
    &&& now.stats.rejects == was.stats.rejects + outs.filter(is_rejected()).len()
    &&& now.stats.traded_qty == was.stats.traded_qty + lots_of(trades)
}

/// Between two states went in `log`: each instruction was counted, and counted
/// by its sort.
pub open spec fn tells_inputs(was: SimModel, now: SimModel, log: Seq<InputEvent>) -> bool {
    &&& now.stats.inputs == was.stats.inputs + log.len()
    &&& now.stats.news == was.stats.news + log.filter(is_new()).len()
    &&& now.stats.cancels == was.stats.cancels + log.filter(is_cancel()).len()
    &&& now.stats.modifies == was.stats.modifies + log.filter(is_modify()).len()
}

/// The samples of depth and spread are untouched.
spec fn same_samples(was: SimModel, now: SimModel) -> bool {
    &&& now.stats.depth_samples == was.stats.depth_samples
    &&& now.stats.depth_sum == was.stats.depth_sum
    &&& now.stats.spread_samples == was.stats.spread_samples
    &&& now.stats.spread_sum == was.stats.spread_sum
}

proof fn lemma_trades_concat(a: Seq<OutputEvent>, b: Seq<OutputEvent>)
    ensures
        trades_of(a + b) == trades_of(a) + trades_of(b),
    decreases b.len(),
{
    if b.len() == 0 {
        assert(a + b =~= a);
        assert(trades_of(a) + trades_of(b) =~= trades_of(a));
    } else {
        assert((a + b).drop_last() =~= a + b.drop_last());
        assert((a + b).last() == b.last());
        lemma_trades_concat(a, b.drop_last());
        assert(trades_of(a + b) =~= trades_of(a) + trades_of(b));
    }
}

proof fn lemma_lots_concat(a: Seq<(i64, u64)>, b: Seq<(i64, u64)>)
    ensures
        lots_of(a + b) == lots_of(a) + lots_of(b),
    decreases b.len(),
{
    if b.len() == 0 {
        assert(a + b =~= a);
    } else {
        assert((a + b).drop_last() =~= a + b.drop_last());
        lemma_lots_concat(a, b.drop_last());
    }
}

/// What a list remembers of a history and more is what it remembers of what it
/// remembered and more.
proof fn lemma_newest_chain(r: Seq<(i64, u64)>, x: Seq<(i64, u64)>, y: Seq<(i64, u64)>)
    ensures
        newest(newest(r + x) + y) == newest(r + (x + y)),
{
    assert((r + x) + y =~= r + (x + y));
    assert(newest(newest(r + x) + y) =~= newest(r + (x + y)));
}

proof fn lemma_outputs_chain(
    a: SimModel,
    b: SimModel,
    c: SimModel,
    x: Seq<OutputEvent>,
    y: Seq<OutputEvent>,
)
    requires
        tells_outputs(a, b, x),
        tells_outputs(b, c, y),
    ensures
        tells_outputs(a, c, x + y),
{
    lemma_trades_concat(x, y);
    lemma_lots_concat(trades_of(x), trades_of(y));
    lemma_newest_chain(a.recent, trades_of(x), trades_of(y));
    Seq::filter_distributes_over_add(x, y, is_ack());
    Seq::filter_distributes_over_add(x, y, is_cancelled());
    Seq::filter_distributes_over_add(x, y, is_rejected());
}

proof fn lemma_inputs_chain(
    a: SimModel,
    b: SimModel,
    c: SimModel,
    x: Seq<InputEvent>,
    y: Seq<InputEvent>,
)
    requires
        tells_inputs(a, b, x),
        tells_inputs(b, c, y),
    ensures
        tells_inputs(a, c, x + y),
{
    Seq::filter_distributes_over_add(x, y, is_new());
    Seq::filter_distributes_over_add(x, y, is_cancel());
    Seq::filter_distributes_over_add(x, y, is_modify());
}

/// Nothing in, nothing out.
proof fn lemma_tells_nothing(m: SimModel)
    requires
        m.recent.len() <= 64,
    ensures
        tells_outputs(m, m, Seq::empty()),
        tells_inputs(m, m, Seq::empty()),
{
    let none = Seq::<OutputEvent>::empty();
    let nothing = Seq::<InputEvent>::empty();
    assert(m.recent + trades_of(none) =~= m.recent);
    assert(none.filter(is_ack()) =~= none) by {
        reveal(Seq::filter);
    }
    assert(none.filter(is_cancelled()) =~= none) by {
        reveal(Seq::filter);
    }
    assert(none.filter(is_rejected()) =~= none) by {
        reveal(Seq::filter);
    }
    assert(nothing.filter(is_new()) =~= nothing) by {
        reveal(Seq::filter);
    }
    assert(nothing.filter(is_cancel()) =~= nothing) by {
        reveal(Seq::filter);
    }
    assert(nothing.filter(is_modify()) =~= nothing) by {
        reveal(Seq::filter);
    }
}

/// Taking note of outputs: each is counted by its sort, the trades remembered
/// are the latest of those remembered before and those reported now, and the
/// last trade is the latest reported.
#[verifier::spinoff_prover]
#[verifier::rlimit(40)]
pub proof fn law_noted_is_told(m: SimModel, outs: Seq<OutputEvent>)
    requires
        m.stats.wf(),
        m.stats.outputs() + outs.len() <= u64::MAX,
        m.recent.len() <= 64,
    ensures
        tells_outputs(m, m.noted_all(outs), outs),
        outs.len() > 0 ==> match outs.last() {
            OutputEvent::Fill { price, qty, .. } => {
                &&& m.noted_all(outs).recent.len() > 0
                &&& m.noted_all(outs).recent.last() == (price.0, qty.0)
            },
            _ => true,
        },
    decreases outs.len(),
{
    lemma_tells_nothing(m);
    if outs.len() == 0 {
        assert(outs =~= Seq::empty());
    } else {
        let d = outs.drop_last();
        let e = outs.last();
        let b = m.noted_all(d);
        let c = m.noted_all(outs);
        law_noted_is_told(m, d);
        lemma_noted_all(m, d);
        assert(outs =~= d.push(e));
        d.lemma_filter_push(e, is_ack());
        d.lemma_filter_push(e, is_cancelled());
        d.lemma_filter_push(e, is_rejected());
        let x = trades_of(d);
        let y = trades_of(outs);
        match e {
            OutputEvent::Fill { price, qty, .. } => {
                assert(y.drop_last() =~= x);
                let all = m.recent + x;
                assert(m.recent + y =~= all.push((price.0, qty.0)));
                assert(c.recent =~= newest(m.recent + y));
            },
            _ => {},
        }
    }
}

/// One intent: its instruction goes in, and everything that comes out of the
/// book is told.
#[verifier::spinoff_prover]
#[verifier::rlimit(40)]
proof fn lemma_fed_told(m: SimModel, intent: Intent, trader: u32)
    requires
        m.market_ok(),
        m.room(1),
    ensures
        ({
            let ev = m.event(intent, trader);
            let n = m.fed(intent, trader);
            &&& tells_outputs(m, n, step(m.book, ev).events)
            &&& tells_inputs(m, n, seq![ev])
            &&& same_samples(m, n)
        }),
{
    let ev = m.event(intent, trader);
    let r = step(m.book, ev);
    law_step_valid(m.book, ev);
    law_output_is_paid_for(m.book, ev);
    let counted = SimModel {
        seq: (m.seq + 1) as u64,
        stats: m.stats.with_input(ev),
        book: r.book,
        ..m
    };
    law_noted_is_told(counted, r.events);
    lemma_noted_kept(counted, r.events);
    let one = seq![ev];
    let none = Seq::<InputEvent>::empty();
    lemma_tells_nothing(m);
    assert(one =~= none.push(ev));
    none.lemma_filter_push(ev, is_new());
    none.lemma_filter_push(ev, is_cancel());
    none.lemma_filter_push(ev, is_modify());
}

/// Taking note of outputs leaves the other counts alone.
proof fn lemma_noted_kept(m: SimModel, outs: Seq<OutputEvent>)
    ensures
        ({
            let n = m.noted_all(outs);
            &&& same_samples(m, n)
            &&& n.stats.inputs == m.stats.inputs
            &&& n.stats.news == m.stats.news
            &&& n.stats.cancels == m.stats.cancels
            &&& n.stats.modifies == m.stats.modifies
        }),
    decreases outs.len(),
{
    if outs.len() > 0 {
        lemma_noted_kept(m, outs.drop_last());
    }
}

proof fn lemma_fed_all_told(m: SimModel, intents: Seq<Intent>, trader: u32)
    requires
        m.market_ok(),
        m.room(intents.len() as int),
    ensures
        ({
            let t = m.fed_all(intents, trader);
            &&& tells_outputs(m, t.sim, run(m.book, t.log).events)
            &&& tells_inputs(m, t.sim, t.log)
            &&& same_samples(m, t.sim)
        }),
    decreases intents.len(),
{
    lemma_tells_nothing(m);
    if intents.len() > 0 {
        let d = intents.drop_last();
        lemma_fed_all(m, d, trader);
        lemma_fed_all_told(m, d, trader);
        let before = m.fed_all(d, trader);
        let ev = before.sim.event(intents.last(), trader);
        let t = m.fed_all(intents, trader);
        lemma_fed_told(before.sim, intents.last(), trader);
        assert(t.log.drop_last() =~= before.log);
        assert(before.log + seq![ev] =~= t.log);
        lemma_outputs_chain(
            m,
            before.sim,
            t.sim,
            run(m.book, before.log).events,
            step(before.sim.book, ev).events,
        );
        lemma_inputs_chain(m, before.sim, t.sim, before.log, seq![ev]);
    }
}

proof fn lemma_agent_told(m: SimModel, i: int)
    requires
        m.wf(),
        0 <= i < m.agents.len(),
        m.room(MOST_INTENTS as int),
    ensures
        ({
            let t = m.agent_acted(i);
            &&& tells_outputs(m, t.sim, run(m.book, t.log).events)
            &&& tells_inputs(m, t.sim, t.log)
            &&& same_samples(m, t.sim)
        }),
{
    let a = m.agents[i].acts(m.view, m.rng);
    lemma_acts_bounded(m.agents[i], m.book.cfg, m.stats.inputs as int, m.view, m.rng);
    let u = SimModel { rng: a.rng, agents: m.agents.update(i, a.agent), ..m };
    assert(u.market_ok());
    lemma_fed_all_told(u, a.intents, i as u32);
}

proof fn lemma_acted_told(m: SimModel, n: nat)
    requires
        m.wf(),
        n <= m.agents.len(),
        m.room(MOST_INTENTS * n),
    ensures
        ({
            let t = m.acted(n);
            &&& tells_outputs(m, t.sim, run(m.book, t.log).events)
            &&& tells_inputs(m, t.sim, t.log)
            &&& same_samples(m, t.sim)
        }),
    decreases n,
{
    lemma_tells_nothing(m);
    if n > 0 {
        let before = m.acted((n - 1) as nat);
        lemma_acted(m, (n - 1) as nat);
        lemma_acted_told(m, (n - 1) as nat);
        lemma_agent_told(before.sim, n - 1);
        let last = before.sim.agent_acted(n - 1);
        law_replay_in_parts(m.book, before.log, last.log);
        lemma_outputs_chain(
            m,
            before.sim,
            last.sim,
            run(m.book, before.log).events,
            run(before.sim.book, last.log).events,
        );
        lemma_inputs_chain(m, before.sim, last.sim, before.log, last.log);
    }
}

/// What a tick tells is true: it counts what it logs and what came out of the
/// book for it, each by its sort; the trades it remembers are the latest of
/// those before it and its own; and it samples the book it leaves once: how
/// many orders rest, and how far apart the best prices are, where both sides
/// have one.
pub proof fn law_tick_tells_the_truth(m: SimModel, ref_price: Price)
    requires
        m.wf(),
        m.in_grid(ref_price),
        m.room(MOST_INTENTS * m.agents.len()),
        m.stats.depth_samples < u64::MAX,
    ensures
        ({
            let t = m.ticked(ref_price);
            let n = t.sim;
            &&& tells_outputs(m, n, run(m.book, t.log).events)
            &&& tells_inputs(m, n, t.log)
            &&& n.stats.depth_samples == m.stats.depth_samples + 1
            &&& n.stats.depth_sum == m.stats.depth_sum + n.book.live()
            &&& match (n.book.best_price(Side::Bid), n.book.best_price(Side::Ask)) {
                (Some(b), Some(a)) => {
                    &&& n.stats.spread_samples == m.stats.spread_samples + 1
                    &&& n.stats.spread_sum == m.stats.spread_sum + (a.0 - b.0)
                },
                _ => {
                    &&& n.stats.spread_samples == m.stats.spread_samples
                    &&& n.stats.spread_sum == m.stats.spread_sum
                },
            }
            &&& n.view.ref_price == ref_price
            &&& n.view.best_bid == n.book.best_price(Side::Bid)
            &&& n.view.best_ask == n.book.best_price(Side::Ask)
            &&& n.view.live_orders == n.book.live()
        }),
{
    let start = SimModel { view: BookView { ref_price, ..m.view }, ..m };
    assert forall|i: int| 0 <= i < start.agents.len() implies (#[trigger] start.agents[i]).wf(
        start.book.cfg,
        start.stats.inputs as int,
    ) by {
        assert(m.agents[i].wf(m.book.cfg, m.stats.inputs as int));
    }
    let n = m.agents.len();
    lemma_acted(start, n);
    lemma_acted_told(start, n);
    lemma_ref_kept(start, n);
    let t = start.acted(n);
    crate::laws::law_uncrossed_prices(t.sim.book);
    crate::runner::lemma_sampled(
        t.sim.stats,
        t.sim.book.live(),
        t.sim.view.best_bid,
        t.sim.view.best_ask,
    );
}

/// The agents do not move the reference price.
proof fn lemma_ref_kept(m: SimModel, n: nat)
    requires
        m.wf(),
        n <= m.agents.len(),
        m.room(MOST_INTENTS * n),
    ensures
        m.acted(n).sim.view.ref_price == m.view.ref_price,
    decreases n,
{
    if n > 0 {
        let before = m.acted((n - 1) as nat).sim;
        lemma_acted(m, (n - 1) as nat);
        lemma_ref_kept(m, (n - 1) as nat);
        let i = n - 1;
        let a = before.agents[i].acts(before.view, before.rng);
        lemma_acts_bounded(
            before.agents[i],
            before.book.cfg,
            before.stats.inputs as int,
            before.view,
            before.rng,
        );
        let u = SimModel { rng: a.rng, agents: before.agents.update(i, a.agent), ..before };
        assert(u.market_ok());
        lemma_fed_all(u, a.intents, i as u32);
    }
}

/// Whose instruction it is.
pub open spec fn trader_of(ev: InputEvent) -> u32 {
    match ev {
        InputEvent::New { trader, .. } => trader.0,
        InputEvent::Cancel { trader, .. } => trader.0,
        InputEvent::Modify { trader, .. } => trader.0,
    }
}

/// The instructions of one trader.
pub open spec fn of_trader(i: int) -> spec_fn(InputEvent) -> bool {
    |ev: InputEvent| trader_of(ev) == i
}

/// Agent number `i` had its turn between two states, once: it acted on some view
/// of the market at the reference price, and what it wanted stands in the log
/// under its number, no more and no less.
pub open spec fn had_its_turn(m: SimModel, now: SimModel, log: Seq<InputEvent>, i: int) -> bool {
    exists|v: BookView, r: Pcg|
        {
            &&& v.ref_price == m.view.ref_price
            &&& now.agents[i] == (#[trigger] m.agents[i].acts(v, r)).agent
            &&& log.filter(of_trader(i)).len() == m.agents[i].acts(v, r).intents.len()
        }
}

/// What comes of the wants of one agent stands under its number.
proof fn lemma_fed_all_trader(m: SimModel, intents: Seq<Intent>, trader: u32)
    ensures
        m.fed_all(intents, trader).log.len() == intents.len(),
        forall|k: int|
            0 <= k < intents.len() ==> trader_of(#[trigger] m.fed_all(intents, trader).log[k])
                == trader,
    decreases intents.len(),
{
    if intents.len() > 0 {
        let d = intents.drop_last();
        lemma_fed_all_trader(m, d, trader);
        let before = m.fed_all(d, trader);
        let t = m.fed_all(intents, trader);
        assert forall|k: int| 0 <= k < intents.len() implies trader_of(#[trigger] t.log[k])
            == trader by {
            if k < d.len() {
                assert(t.log[k] == before.log[k]);
            }
        }
    }
}

/// A filter takes all or nothing of what is all alike.
proof fn lemma_filter_alike(log: Seq<InputEvent>, p: spec_fn(InputEvent) -> bool, all: bool)
    requires
        forall|k: int| 0 <= k < log.len() ==> p(#[trigger] log[k]) == all,
    ensures
        log.filter(p).len() == if all {
            log.len()
        } else {
            0
        },
    decreases log.len(),
{
    reveal(Seq::filter);
    if log.len() > 0 {
        let d = log.drop_last();
        assert forall|k: int| 0 <= k < d.len() implies p(#[trigger] d[k]) == all by {
            assert(d[k] == log[k]);
        }
        lemma_filter_alike(d, p, all);
        assert(p(log[log.len() - 1]) == all);
    }
}

#[verifier::spinoff_prover]
#[verifier::rlimit(40)]
proof fn lemma_turns(m: SimModel, n: nat)
    requires
        m.wf(),
        n <= m.agents.len(),
        m.room(MOST_INTENTS * n),
    ensures
        ({
            let t = m.acted(n);
            &&& t.sim.agents.len() == m.agents.len()
            &&& forall|i: int| 0 <= i < n ==> #[trigger] had_its_turn(m, t.sim, t.log, i)
            &&& forall|i: int|
                n <= i < m.agents.len() ==> {
                    &&& #[trigger] t.sim.agents[i] == m.agents[i]
                    &&& t.log.filter(of_trader(i)).len() == 0
                }
        }),
    decreases n,
{
    let t = m.acted(n);
    if n == 0 {
        assert forall|i: int| n <= i < m.agents.len() implies {
            &&& #[trigger] t.sim.agents[i] == m.agents[i]
            &&& t.log.filter(of_trader(i)).len() == 0
        } by {
            lemma_filter_alike(t.log, of_trader(i), true);
        }
    } else {
        let e = n - 1;
        let before = m.acted(e as nat);
        lemma_turns(m, e as nat);
        lemma_acted(m, e as nat);
        lemma_ref_kept(m, e as nat);
        lemma_agent_acted(before.sim, e);
        let b = before.sim;
        let a = b.agents[e].acts(b.view, b.rng);
        lemma_acts_bounded(b.agents[e], b.book.cfg, b.stats.inputs as int, b.view, b.rng);
        let u = SimModel { rng: a.rng, agents: b.agents.update(e, a.agent), ..b };
        assert(u.market_ok());
        let last = b.agent_acted(e);
        lemma_fed_all(u, a.intents, e as u32);
        lemma_fed_all_trader(u, a.intents, e as u32);
        assert forall|i: int| 0 <= i < m.agents.len() implies #[trigger] t.log.filter(
            of_trader(i),
        ).len() == before.log.filter(of_trader(i)).len() + (if i == e {
            a.intents.len() as int
        } else {
            0
        }) by {
            Seq::filter_distributes_over_add(before.log, last.log, of_trader(i));
            lemma_filter_alike(last.log, of_trader(i), i == e);
        }
        assert forall|i: int| 0 <= i < n implies #[trigger] had_its_turn(m, t.sim, t.log, i) by {
            assert(t.log.filter(of_trader(i)).len() >= 0);
            if i == e {
                assert(b.agents[e] == m.agents[e]);
                assert(t.sim.agents[e] == m.agents[e].acts(b.view, b.rng).agent);
            } else {
                assert(had_its_turn(m, b, before.log, i));
                let (v, r) = choose|v: BookView, r: Pcg|
                    {
                        &&& v.ref_price == m.view.ref_price
                        &&& b.agents[i] == (#[trigger] m.agents[i].acts(v, r)).agent
                        &&& before.log.filter(of_trader(i)).len() == m.agents[i].acts(
                            v,
                            r,
                        ).intents.len()
                    };
                assert(t.sim.agents[i] == m.agents[i].acts(v, r).agent);
            }
        }
        assert forall|i: int| n <= i < m.agents.len() implies {
            &&& #[trigger] t.sim.agents[i] == m.agents[i]
            &&& t.log.filter(of_trader(i)).len() == 0
        } by {
            assert(b.agents[i] == m.agents[i]);
        }
    }
}

/// In a tick every agent has its turn, once; and what it wanted
/// stands in the log.
pub proof fn law_every_agent_has_its_turn(m: SimModel, ref_price: Price)
    requires
        m.wf(),
        m.in_grid(ref_price),
        m.room(MOST_INTENTS * m.agents.len()),
    ensures
        ({
            let t = m.ticked(ref_price);
            let start = SimModel { view: BookView { ref_price, ..m.view }, ..m };
            &&& t.sim.agents.len() == m.agents.len()
            &&& forall|i: int|
                0 <= i < m.agents.len() ==> #[trigger] had_its_turn(start, t.sim, t.log, i)
        }),
{
    let start = SimModel { view: BookView { ref_price, ..m.view }, ..m };
    assert forall|i: int| 0 <= i < start.agents.len() implies (#[trigger] start.agents[i]).wf(
        start.book.cfg,
        start.stats.inputs as int,
    ) by {
        assert(m.agents[i].wf(m.book.cfg, m.stats.inputs as int));
    }
    let n = m.agents.len();
    lemma_turns(start, n);
    let a = start.acted(n);
    let t = m.ticked(ref_price);
    assert forall|i: int| 0 <= i < n implies #[trigger] had_its_turn(start, t.sim, t.log, i) by {
        assert(had_its_turn(start, a.sim, a.log, i));
        let (v, r) = choose|v: BookView, r: Pcg|
            {
                &&& v.ref_price == start.view.ref_price
                &&& a.sim.agents[i] == (#[trigger] start.agents[i].acts(v, r)).agent
                &&& a.log.filter(of_trader(i)).len() == start.agents[i].acts(v, r).intents.len()
            };
        assert(t.sim.agents[i] == start.agents[i].acts(v, r).agent);
    }
}

} // verus!
