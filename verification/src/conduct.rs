//! How the agents behave: what each of them may want, at which prices and in
//! which sizes, and what it remembers.

use crate::adversarial::{fresh_adversarial, AdversarialModel};
use crate::agent::{grid_ok, lemma_grid, BookView, Ids, Intent};
use crate::config::BookConfig;
use crate::events::InputEvent;
use crate::market_maker::{fresh_maker, MakerModel};
use crate::momentum::{fresh_momentum, MomentumModel};
use crate::noise::{drawn_offset, fresh_noise, NoiseModel};
use crate::rng::Pcg;
use crate::types::{OrderId, Price, SelfTradePrevention, SeqNo, Side, TimeInForce, TraderId};
use vstd::prelude::*;

verus! {

/// The highest price of a grid.
pub open spec fn highest(cfg: BookConfig) -> int {
    cfg.min_price + (cfg.num_levels - 1) * cfg.tick_size
}

/// `p` is as near to `x` as the grid's lowest and highest price allow.
pub open spec fn as_near_as_can_be(cfg: BookConfig, p: int, x: int) -> bool {
    &&& cfg.min_price <= p <= highest(cfg)
    &&& x < cfg.min_price ==> p == cfg.min_price
    &&& x > highest(cfg) ==> p == highest(cfg)
    &&& cfg.min_price <= x <= highest(cfg) ==> p == x
}

/// Where the market is: in the middle of the best prices, rounded towards zero,
/// where both sides have one; at the reference price otherwise.
pub open spec fn market_center(view: BookView) -> int {
    match (view.best_bid, view.best_ask) {
        (Some(b), Some(a)) => if b.0 + a.0 >= 0 {
            (b.0 + a.0) / 2
        } else {
            -((-(b.0 + a.0)) / 2)
        },
        _ => view.ref_price.0 as int,
    }
}

/// The random draws stay in their bounds.
pub proof fn law_draws_in_bounds(rng: Pcg, n: u64, lo: int, hi: int)
    requires
        n > 0,
        lo < hi,
        hi - lo <= u64::MAX,
    ensures
        0 <= rng.below(n) < n,
        lo <= rng.range(lo, hi) < hi,
        !rng.chance(0),
        rng.chance(100),
{
}

/// The offset of a noise trader is 0 to 20 ticks.
proof fn lemma_offset(rng: Pcg, off: int)
    requires
        0 <= off <= 20,
    ensures
        off <= drawn_offset(rng, off) <= 20,
    decreases 20 - off,
{
    if rng.chance(60) && off < 20 {
        lemma_offset(rng.next(), off + 1);
    }
}

/// A want that a noise trader may have of the market: within 20 ticks of where
/// that is, a bid not above it and an ask not below it, as far as the grid
/// allows; 1 to 50 lots, without a self-trade rule, good till cancelled or
/// immediate.
pub open spec fn quotes_around(m: NoiseModel, view: BookView, want: Intent) -> bool {
    let c = market_center(view);
    want matches Intent::New { order_id, side, price, qty, tif, stp } && {
        &&& order_id == m.ids.id()
        &&& m.cfg.min_price <= price.0 <= highest(m.cfg)
        &&& side == Side::Bid ==> {
            &&& price.0 <= c || price.0 == m.cfg.min_price
            &&& price.0 >= c - 20 || price.0 == highest(m.cfg)
        }
        &&& side == Side::Ask ==> {
            &&& price.0 >= c || price.0 == highest(m.cfg)
            &&& price.0 <= c + 20 || price.0 == m.cfg.min_price
        }
        &&& 1 <= qty.0 <= 50
        &&& tif != TimeInForce::Fok
        &&& stp == SelfTradePrevention::Disabled
    }
}

#[verifier::spinoff_prover]
#[verifier::rlimit(40)]
proof fn lemma_noise_arrives(m: NoiseModel, view: BookView, rng: Pcg)
    requires
        grid_ok(m.cfg, 0),
        view.mid_fits(),
    ensures
        m.arrives(view, rng).intents.len() == if rng.chance(m.arrival_pct) {
            1int
        } else {
            0
        },
        rng.chance(m.arrival_pct) ==> quotes_around(m, view, m.arrives(view, rng).intents[0]),
{
    lemma_grid(m.cfg);
    lemma_offset(rng.next(), 0);
}

/// When a noise trader wants something, and where it quotes: a cancel first,
/// where it has orders resting and its luck says so; and then a new order
/// around the market, whatever that looks like, where its luck says so.
pub proof fn law_noise_quotes(m: NoiseModel, view: BookView, rng: Pcg)
    requires
        grid_ok(m.cfg, 0),
        view.mid_fits(),
    ensures
        ({
            let a = m.acts(view, rng);
            let cleans = m.resting.len() > 0 && rng.chance(15);
            let draw = if m.resting.len() == 0 {
                rng
            } else if !cleans {
                rng.next()
            } else {
                rng.next().next()
            };
            let first: int = if cleans {
                1
            } else {
                0
            };
            &&& cleans ==> a.intents.len() > 0 && a.intents[0] is Cancel
            &&& a.intents.len() == first + if draw.chance(m.arrival_pct) {
                1int
            } else {
                0
            }
            &&& draw.chance(m.arrival_pct) ==> quotes_around(m, view, a.intents[first])
        }),
{
    let first = m.cleans_up(rng);
    lemma_noise_arrives(first.agent, view, first.rng);
}

/// What a noise trader may want in a tick: at most one cancel, of an order that
/// it has resting, and then at most one new order. What stays on its list of resting orders is what it has not cancelled, and the
/// new order if that can rest.
#[verifier::spinoff_prover]
#[verifier::rlimit(40)]
pub proof fn law_noise_conduct(m: NoiseModel, view: BookView, rng: Pcg)
    ensures
        ({
            let a = m.acts(view, rng);
            let cancels = a.intents.filter(|i: Intent| i is Cancel).len();
            &&& a.intents.len() <= 2
            &&& a.intents.len() == 2 ==> a.intents[0] is Cancel && a.intents[1] is New
            &&& a.agent.cfg == m.cfg
            &&& a.agent.arrival_pct == m.arrival_pct
            &&& forall|j: int|
                0 <= j < a.intents.len() ==> match #[trigger] a.intents[j] {
                    Intent::New { order_id, tif, .. } => {
                        &&& order_id == m.ids.id()
                        &&& tif != TimeInForce::Fok
                        &&& tif == TimeInForce::Gtc <==> a.agent.resting.len() > 0
                            && a.agent.resting.last() == order_id && a.agent.resting.len()
                            == m.resting.len() - cancels + 1
                        &&& tif == TimeInForce::Ioc <==> a.agent.resting.len() == m.resting.len()
                            - cancels
                    },
                    Intent::Cancel { order_id } => {
                        &&& j == 0
                        &&& m.resting.contains(order_id)
                        &&& m.resting.no_duplicates() && !m.resting.contains(m.ids.id())
                            ==> !a.agent.resting.contains(order_id)
                    },
                    Intent::Modify { .. } => false,
                }
            &&& a.intents.len() == 0 ==> a.agent.resting == m.resting
            &&& forall|id: OrderId|
                a.agent.resting.contains(id) ==> m.resting.contains(id) || id == m.ids.id()
        }),
{
    let first = m.cleans_up(rng);
    let second = first.agent.arrives(view, first.rng);
    let a = m.acts(view, rng);
    let is_cancel = |i: Intent| i is Cancel;
    lemma_filter_small(first.intents, second.intents, is_cancel);
    assert(a.intents =~= first.intents + second.intents);
    assert forall|id: OrderId| a.agent.resting.contains(id) implies m.resting.contains(id) || id
        == m.ids.id() by {
        let i = choose|i: int| 0 <= i < a.agent.resting.len() && a.agent.resting[i] == id;
        if i < first.agent.resting.len() {
            assert(first.agent.resting[i] == id);
            if first.intents.len() > 0 {
                let k = rng.next().below(m.resting.len() as u64) as int;
                if i == k {
                    assert(m.resting[m.resting.len() - 1] == id);
                } else {
                    assert(m.resting[i] == id);
                }
            } else {
                assert(m.resting[i] == id);
            }
        }
    }
    if first.intents.len() > 0 {
        let k = rng.next().below(m.resting.len() as u64) as int;
        let gone = m.resting[k];
        assert(m.resting.contains(gone));
        if m.resting.no_duplicates() && !m.resting.contains(m.ids.id()) {
            assert forall|i: int| 0 <= i < a.agent.resting.len() implies a.agent.resting[i]
                != gone by {
                if i < first.agent.resting.len() {
                    assert(a.agent.resting[i] == first.agent.resting[i]);
                    if i == k {
                        assert(first.agent.resting[i] == m.resting[m.resting.len() - 1]);
                    } else {
                        assert(first.agent.resting[i] == m.resting[i]);
                    }
                }
            }
        }
    }
}

/// How many of a few wants satisfy a condition.
proof fn lemma_filter_small(x: Seq<Intent>, y: Seq<Intent>, p: spec_fn(Intent) -> bool)
    requires
        x.len() <= 1,
        y.len() <= 1,
    ensures
        (x + y).filter(p).len() == (if x.len() == 1 && p(x[0]) {
            1int
        } else {
            0
        }) + (if y.len() == 1 && p(y[0]) {
            1int
        } else {
            0
        }),
{
    reveal(Seq::filter);
    Seq::filter_distributes_over_add(x, y, p);
    if x.len() == 1 {
        assert(x.drop_last() =~= Seq::empty());
        assert(x.drop_last().filter(p).len() == 0);
    }
    if y.len() == 1 {
        assert(y.drop_last() =~= Seq::empty());
        assert(y.drop_last().filter(p).len() == 0);
    }
}

/// A quote stands, no further from `want` than the maker tolerates.
pub open spec fn quote_stands(
    quote: Option<(OrderId, Price)>,
    want: int,
    tolerance: i64,
) -> bool {
    quote matches Some((_, p)) && p.0 - want <= tolerance && want - p.0 <= tolerance
}

/// What a market maker does in a tick. It wants its quotes half its spread below
/// and above the reference price, as far as the grid allows. Where these would
/// meet, or both quotes stand near enough, it does nothing at all. Otherwise it
/// cancels what quotes it has, the bid first, and quotes both sides anew: the
/// bid below the ask, of one size, good till cancelled, giving way to itself.
#[verifier::spinoff_prover]
#[verifier::rlimit(40)]
pub proof fn law_maker_conduct(m: MakerModel, view: BookView, rng: Pcg, bid: int, ask: int)
    requires
        m.wf(),
        m.ids.left(2),
        as_near_as_can_be(m.cfg, bid, view.ref_price.0 - m.half_spread),
        as_near_as_can_be(m.cfg, ask, view.ref_price.0 + m.half_spread),
    ensures
        ({
            let a = m.acts(view, rng);
            let n = a.intents.len() as int;
            let old_bids: int = if m.live_bid is Some {
                1
            } else {
                0
            };
            let old_asks: int = if m.live_ask is Some {
                1
            } else {
                0
            };
            if bid >= ask || (quote_stands(m.live_bid, bid, m.tolerance) && quote_stands(
                m.live_ask,
                ask,
                m.tolerance,
            )) {
                n == 0 && a.agent == m && a.rng == rng
            } else {
                &&& n == old_bids + old_asks + 2
                &&& m.live_bid matches Some((id, _)) ==> a.intents[0] == (Intent::Cancel {
                    order_id: id,
                })
                &&& m.live_ask matches Some((id, _)) ==> a.intents[old_bids] == (Intent::Cancel {
                    order_id: id,
                })
                &&& a.intents[n - 2] matches Intent::New { order_id, side, price, qty, tif, stp } && {
                    &&& a.agent.live_bid == Some((order_id, price))
                    &&& side == Side::Bid
                    &&& price.0 == bid
                    &&& m.quote_size <= qty.0 < m.quote_size + 5
                    &&& tif == TimeInForce::Gtc
                    &&& stp == SelfTradePrevention::CancelResting
                    &&& a.intents[n - 1] matches Intent::New {
                        order_id: other,
                        side: there,
                        price: above,
                        qty: same,
                        tif: rests,
                        stp: rule,
                    } && {
                        &&& a.agent.live_ask == Some((other, above))
                        &&& there == Side::Ask
                        &&& above.0 == ask
                        &&& same == qty
                        &&& rests == TimeInForce::Gtc
                        &&& rule == SelfTradePrevention::CancelResting
                    }
                }
                &&& a.agent.cfg == m.cfg
                &&& a.agent.half_spread == m.half_spread
                &&& a.agent.quote_size == m.quote_size
                &&& a.agent.tolerance == m.tolerance
                &&& a.agent.ids.base == m.ids.base
                &&& a.agent.ids.used == m.ids.used + 2
            }
        }),
{
    lemma_grid(m.cfg);
}

/// What a momentum trader does in a tick: it remembers the last trade; and only
/// where the price has moved since the one before, and its luck says so, it
/// chases it with one immediate order on the side it moved to, at most 3 ticks
/// through the best price there, of 10 to 199 lots. Where that side is empty
/// there is nothing to chase.
pub proof fn law_momentum_conduct(m: MomentumModel, view: BookView, rng: Pcg)
    requires
        m.ids.left(1),
        view.best_ask matches Some(a) ==> a.0 <= i64::MAX - 3,
        view.best_bid matches Some(b) ==> b.0 >= i64::MIN + 3,
    ensures
        ({
            let a = m.acts(view, rng);
            let moved = match (m.last_seen, view.last_trade) {
                (Some(prev), Some(trade)) => prev.0 != trade.0,
                _ => false,
            };
            let up = match (m.last_seen, view.last_trade) {
                (Some(prev), Some(trade)) => prev.0 < trade.0,
                _ => false,
            };
            let there = if up {
                view.best_ask
            } else {
                view.best_bid
            };
            &&& a.agent.activity_pct == m.activity_pct
            &&& a.agent.last_seen == if view.last_trade is Some {
                view.last_trade
            } else {
                m.last_seen
            }
            &&& a.intents.len() == if moved && there is Some && rng.chance(m.activity_pct) {
                1int
            } else {
                0
            }
            &&& a.intents.len() == 0 ==> a.agent.ids == m.ids
            &&& a.intents.len() == 1 ==> {
                &&& a.agent.ids.used == m.ids.used + 1
                &&& a.agent.ids.base == m.ids.base
                &&& a.intents[0] matches Intent::New { order_id, side, price, qty, tif, stp } && {
                    &&& order_id == m.ids.id()
                    &&& up ==> side == Side::Bid
                    &&& !up ==> side == Side::Ask
                    &&& there matches Some(best) && {
                        &&& up ==> best.0 <= price.0 <= best.0 + 3
                        &&& !up ==> best.0 - 3 <= price.0 <= best.0
                    }
                    &&& 10 <= qty.0 <= 199
                    &&& tif == TimeInForce::Ioc
                    &&& stp == SelfTradePrevention::Disabled
                }
            }
        }),
{
}

/// A burst: that many small orders on the one level, each of which may end up on
/// the list of what to cancel.
proof fn lemma_burst(m: AdversarialModel, rng: Pcg, n: nat)
    requires
        m.ids.left(n as int),
    ensures
        ({
            let a = m.bursts(rng, n);
            &&& a.intents.len() == n
            &&& a.agent.cfg == m.cfg
            &&& a.agent.target_level == m.target_level
            &&& a.agent.ids.base == m.ids.base
            &&& a.agent.ids.used == m.ids.used + n
            &&& forall|j: int| 0 <= j < n ==> hammers(m, #[trigger] a.intents[j], j)
            &&& forall|i: int|
                0 <= i < a.agent.pending_cancel.len() ==> m.pending_cancel.contains(
                    #[trigger] a.agent.pending_cancel[i],
                ) || wants_new(a.intents, a.agent.pending_cancel[i])
        }),
    decreases n,
{
    if n > 0 {
        let d = m.bursts(rng, (n - 1) as nat);
        let a = m.bursts(rng, n);
        lemma_burst(m, rng, (n - 1) as nat);
        assert forall|j: int| 0 <= j < n implies hammers(m, #[trigger] a.intents[j], j) by {
            if j < n - 1 {
                assert(a.intents[j] == d.intents[j]);
            }
        }
        assert forall|i: int| 0 <= i < a.agent.pending_cancel.len() implies m.pending_cancel.contains(
            #[trigger] a.agent.pending_cancel[i],
        ) || wants_new(a.intents, a.agent.pending_cancel[i]) by {
            let id = a.agent.pending_cancel[i];
            if i < d.agent.pending_cancel.len() {
                assert(d.agent.pending_cancel[i] == id);
                if wants_new(d.intents, id) {
                    let j = choose|j: int|
                        0 <= j < d.intents.len() && is_new_of(#[trigger] d.intents[j], id);
                    assert(is_new_of(a.intents[j], id));
                }
            } else {
                assert(is_new_of(a.intents[n - 1], id));
            }
        }
    }
}

/// A want is a new order with this id.
pub open spec fn is_new_of(want: Intent, id: OrderId) -> bool {
    want matches Intent::New { order_id, .. } && order_id == id
}

/// Among the wants is a new order with this id.
pub open spec fn wants_new(wants: Seq<Intent>, id: OrderId) -> bool {
    exists|j: int| 0 <= j < wants.len() && is_new_of(#[trigger] wants[j], id)
}

/// An order of a burst: the `j`th next id, the one level, 1 to 10 lots, good
/// till cancelled, and both go where it meets its own kind.
pub open spec fn hammers(m: AdversarialModel, want: Intent, j: int) -> bool {
    want matches Intent::New { order_id, price, qty, tif, stp, .. } && {
        &&& order_id.0 == m.ids.base | ((m.ids.used + j + 1) as u64)
        &&& price.0 == m.target_level
        &&& 1 <= qty.0 <= 10
        &&& tif == TimeInForce::Gtc
        &&& stp == SelfTradePrevention::CancelBoth
    }
}

/// What an adversary does in a tick: first it cancels everything on its list,
/// in order. Then one of four attacks, as drawn: a burst of 1 to 8 orders on
/// its one level; a single lot at an edge of the grid, a bid at the bottom or
/// an ask at the top; an immediate bid of 1 to 30 lots at the best ask; or an
/// all-or-nothing ask of 500 to 5,499 lots at the best bid. The probes need a
/// price to aim at. Only orders that it just sent come on its list.
#[verifier::spinoff_prover]
#[verifier::rlimit(40)]
pub proof fn law_adversary_conduct(m: AdversarialModel, view: BookView, rng: Pcg)
    requires
        grid_ok(m.cfg, 0),
        m.ids.left(8),
    ensures
        ({
            let a = m.acts(view, rng);
            let c = m.pending_cancel.len() as int;
            let n = a.intents.len() - c;
            let attack = rng.below(4);
            let late = a.agent.pending_cancel;
            &&& n >= 0
            &&& forall|j: int|
                0 <= j < c ==> #[trigger] a.intents[j] == (Intent::Cancel {
                    order_id: m.pending_cancel[j],
                })
            &&& a.agent.cfg == m.cfg
            &&& a.agent.target_level == m.target_level
            &&& a.agent.ids.base == m.ids.base
            &&& a.agent.ids.used == m.ids.used + n
            &&& forall|i: int| 0 <= i < late.len() ==> wants_new(a.intents, #[trigger] late[i])
            &&& attack == 0 ==> {
                &&& 1 <= n <= 8
                &&& forall|j: int| 0 <= j < n ==> hammers(m, #[trigger] a.intents[c + j], j)
            }
            &&& attack == 1 ==> {
                &&& n == 1
                &&& late == seq![m.ids.id()]
                &&& a.intents[c] matches Intent::New { order_id, side, price, qty, tif, stp } && {
                    &&& order_id == m.ids.id()
                    &&& side == Side::Bid ==> price.0 == m.cfg.min_price
                    &&& side == Side::Ask ==> price.0 == highest(m.cfg)
                    &&& qty.0 == 1
                    &&& tif == TimeInForce::Gtc
                    &&& stp == SelfTradePrevention::Disabled
                }
            }
            &&& attack == 2 ==> {
                &&& late.len() == 0
                &&& n == if view.best_ask is Some {
                    1int
                } else {
                    0
                }
                &&& n == 1 ==> (a.intents[c] matches Intent::New {
                    order_id,
                    side,
                    price,
                    qty,
                    tif,
                    stp,
                } && {
                    &&& order_id == m.ids.id()
                    &&& side == Side::Bid
                    &&& view.best_ask == Some(price)
                    &&& 1 <= qty.0 <= 30
                    &&& tif == TimeInForce::Ioc
                    &&& stp == SelfTradePrevention::CancelResting
                })
            }
            &&& attack == 3 ==> {
                &&& late.len() == 0
                &&& n == if view.best_bid is Some {
                    1int
                } else {
                    0
                }
                &&& n == 1 ==> (a.intents[c] matches Intent::New {
                    order_id,
                    side,
                    price,
                    qty,
                    tif,
                    stp,
                } && {
                    &&& order_id == m.ids.id()
                    &&& side == Side::Ask
                    &&& view.best_bid == Some(price)
                    &&& 500 <= qty.0 <= 5_499
                    &&& tif == TimeInForce::Fok
                    &&& stp == SelfTradePrevention::Disabled
                })
            }
        }),
{
    lemma_grid(m.cfg);
    let idle = AdversarialModel { pending_cancel: Seq::empty(), ..m };
    let r = rng.next();
    let attack = rng.below(4);
    let a = m.acts(view, rng);
    let c = m.pending_cancel.len() as int;
    let late = a.agent.pending_cancel;
    if attack == 0 {
        let n = (1 + r.below(8)) as nat;
        let b = idle.bursts(r.next(), n);
        lemma_burst(idle, r.next(), n);
        assert forall|j: int| 0 <= j < n implies hammers(m, #[trigger] a.intents[c + j], j) by {
            assert(a.intents[c + j] == b.intents[j]);
            assert(hammers(idle, b.intents[j], j));
        }
        assert forall|i: int| 0 <= i < late.len() implies wants_new(
            a.intents,
            #[trigger] late[i],
        ) by {
            assert(b.agent.pending_cancel[i] == late[i]);
            let j = choose|j: int|
                0 <= j < b.intents.len() && is_new_of(#[trigger] b.intents[j], late[i]);
            assert(a.intents[c + j] == b.intents[j]);
            assert(is_new_of(a.intents[c + j], late[i]));
        }
    } else if attack == 1 {
        assert(late =~= seq![m.ids.id()]);
        assert(is_new_of(a.intents[c], m.ids.id()));
    }
}

/// Fresh agents have their bounds: a maker half a spread of 1 to 3 ticks, quotes
/// of 5 to 49 lots and a tolerance of at most one tick, and no quotes yet; a
/// momentum trader 3 to 9 percent activity and nothing seen; a noise trader 10
/// to 29 percent and nothing resting; an adversary a level within 4 ticks of
/// the middle of the grid, and nothing to cancel.
pub proof fn law_fresh_agents(i: u32, cfg: BookConfig, rng: Pcg)
    requires
        grid_ok(cfg, 4),
    ensures
        ({
            let mm = fresh_maker(i, cfg, rng);
            let mo = fresh_momentum(i, rng);
            let no = fresh_noise(i, cfg, rng);
            let ad = fresh_adversarial(i, cfg, rng);
            let middle = cfg.min_price + (highest(cfg) - cfg.min_price) / 2;
            &&& 1 <= mm.half_spread <= 3
            &&& 5 <= mm.quote_size <= 49
            &&& 0 <= mm.tolerance <= 1
            &&& mm.live_bid is None
            &&& mm.live_ask is None
            &&& mm.cfg == cfg
            &&& 3 <= mo.activity_pct <= 9
            &&& mo.last_seen is None
            &&& 10 <= no.arrival_pct <= 29
            &&& no.resting.len() == 0
            &&& no.cfg == cfg
            &&& middle - 4 <= ad.target_level <= middle + 4
            &&& ad.pending_cancel.len() == 0
            &&& ad.cfg == cfg
            &&& mm.ids == Ids::of_agent(i)
            &&& mo.ids == Ids::of_agent(i)
            &&& no.ids == Ids::of_agent(i)
            &&& ad.ids == Ids::of_agent(i)
        }),
{
    lemma_grid(cfg);
}

/// The ids of an agent: those of agent number `i` start above `i + 1` times two
/// to the fortieth, and go up one by one.
pub proof fn law_ids_count_up(i: u32, n: u64)
    requires
        i < 0xff_ffff,
        n < 0xff_ffff_ffff,
    ensures
        Ids::of_agent(i).used == 0,
        Ids::of_agent(i).base == (i + 1) * 0x100_0000_0000,
        Ids::of_agent(i).after(n).id().0 == (i + 1) * 0x100_0000_0000 + n + 1,
        Ids::of_agent(i).after(n).step() == Ids::of_agent(i).after((n + 1) as u64),
{
    let x = (i + 1) as u64;
    let p = (n + 1) as u64;
    assert(x << 40 == x * 0x100_0000_0000 && (x << 40) | p == x * 0x100_0000_0000 + p)
        by (bit_vector)
        requires
            x <= 0xff_ffff,
            p <= 0xff_ffff_ffff,
    ;
}

/// An intent becomes an instruction of the same sort, with the number and the
/// trader it is given and everything else as wanted.
pub proof fn law_intent_becomes_instruction(want: Intent, seq: u64, trader: TraderId)
    ensures
        ({
            let ev = want.into_event(seq, trader);
            &&& ev.seq() == SeqNo(seq)
            &&& want is New <==> ev is New
            &&& want is Cancel <==> ev is Cancel
            &&& want is Modify <==> ev is Modify
            &&& ev matches InputEvent::New {
                trader: by,
                order_id,
                side,
                price,
                qty,
                tif,
                stp,
                ..
            } ==> by == trader && want == (Intent::New { order_id, side, price, qty, tif, stp })
            &&& ev matches InputEvent::Cancel { trader: by, order_id, .. } ==> by == trader && want
                == (Intent::Cancel { order_id })
            &&& ev matches InputEvent::Modify { trader: by, order_id, new_price, new_qty, .. }
                ==> by == trader && want == (Intent::Modify { order_id, new_price, new_qty })
        }),
{
}

/// Two wants are the same but for their prices, and those are equally far from
/// `x` and `y`, as near as the grid allows.
pub open spec fn shifted(cfg: BookConfig, a: Intent, x: int, b: Intent, y: int) -> bool {
    match (a, b) {
        (
            Intent::New { order_id, side, price, qty, tif, stp },
            Intent::New {
                order_id: id,
                side: there,
                price: other,
                qty: lots,
                tif: lasts,
                stp: rule,
            },
        ) => {
            &&& order_id == id && side == there && qty == lots && tif == lasts && stp == rule
            &&& exists|off: int| #[trigger]
                as_near_as_can_be(cfg, price.0 as int, x + off) && as_near_as_can_be(
                    cfg,
                    other.0 as int,
                    y + off,
                )
        },
        _ => a == b,
    }
}

/// How far from the market an arriving noise trader quotes.
spec fn lean(rng: Pcg, side: Side) -> int {
    match side {
        Side::Bid => -drawn_offset(rng.next(), 0),
        Side::Ask => drawn_offset(rng.next(), 0),
    }
}

/// An arriving noise trader quotes so far from the market.
#[verifier::spinoff_prover]
#[verifier::rlimit(40)]
proof fn lemma_arrives_near(m: NoiseModel, v: BookView, rng: Pcg)
    requires
        grid_ok(m.cfg, 0),
        v.mid_fits(),
        rng.chance(m.arrival_pct),
    ensures
        m.arrives(v, rng).intents[0] matches Intent::New { side, price, .. } && as_near_as_can_be(
            m.cfg,
            price.0 as int,
            market_center(v) + lean(rng, side),
        ),
{
    lemma_grid(m.cfg);
}

/// An arriving noise trader wants the same of any two markets.
#[verifier::spinoff_prover]
proof fn lemma_arrives_alike(m: NoiseModel, v: BookView, w: BookView, rng: Pcg)
    requires
        grid_ok(m.cfg, 0),
        v.mid_fits(),
        w.mid_fits(),
    ensures
        ({
            let a = m.arrives(v, rng);
            let b = m.arrives(w, rng);
            &&& a.agent == b.agent
            &&& a.rng == b.rng
            &&& a.intents.len() == b.intents.len() <= 1
            &&& a.intents.len() == 1 ==> shifted(
                m.cfg,
                a.intents[0],
                market_center(v),
                b.intents[0],
                market_center(w),
            )
        }),
{
    if rng.chance(m.arrival_pct) {
        let x = m.arrives(v, rng).intents[0];
        let y = m.arrives(w, rng).intents[0];
        lemma_arrives_near(m, v, rng);
        lemma_arrives_near(m, w, rng);
        let side = x->New_side;
        assert(y->New_side == side);
        let off = lean(rng, side);
        assert(as_near_as_can_be(m.cfg, x->New_price.0 as int, market_center(v) + off));
        assert(as_near_as_can_be(m.cfg, y->New_price.0 as int, market_center(w) + off));
    }
}

/// A noise trader sees where the market is and nothing else: on the same luck it
/// wants the same of any two markets, around where each of them is, and
/// remembers the same.
pub proof fn law_noise_follows_the_market(m: NoiseModel, v: BookView, w: BookView, rng: Pcg)
    requires
        grid_ok(m.cfg, 0),
        v.mid_fits(),
        w.mid_fits(),
    ensures
        ({
            let a = m.acts(v, rng);
            let b = m.acts(w, rng);
            &&& a.agent == b.agent
            &&& a.rng == b.rng
            &&& a.intents.len() == b.intents.len()
            &&& forall|j: int|
                0 <= j < a.intents.len() ==> shifted(
                    m.cfg,
                    #[trigger] a.intents[j],
                    market_center(v),
                    b.intents[j],
                    market_center(w),
                )
        }),
{
    let first = m.cleans_up(rng);
    let n = first.intents.len() as int;
    let a = m.acts(v, rng);
    let b = m.acts(w, rng);
    lemma_arrives_alike(first.agent, v, w, first.rng);
    assert forall|j: int| 0 <= j < a.intents.len() implies shifted(
        m.cfg,
        #[trigger] a.intents[j],
        market_center(v),
        b.intents[j],
        market_center(w),
    ) by {
        if j < n {
            assert(a.intents[j] == first.intents[j]);
            assert(b.intents[j] == first.intents[j]);
        } else {
            assert(a.intents[j] == first.agent.arrives(v, first.rng).intents[0]);
            assert(b.intents[j] == first.agent.arrives(w, first.rng).intents[0]);
        }
    }
}

/// A market maker sees the reference price and nothing else.
pub proof fn law_maker_follows_the_reference(m: MakerModel, v: BookView, w: BookView, rng: Pcg)
    requires
        v.ref_price == w.ref_price,
    ensures
        m.acts(v, rng).agent == m.acts(w, rng).agent,
        m.acts(v, rng).rng == m.acts(w, rng).rng,
        m.acts(v, rng).intents == m.acts(w, rng).intents,
{
}

/// A momentum trader sees the last trade and the best prices and nothing else.
pub proof fn law_momentum_follows_the_trades(
    m: MomentumModel,
    v: BookView,
    w: BookView,
    rng: Pcg,
)
    requires
        v.last_trade == w.last_trade,
        v.best_bid == w.best_bid,
        v.best_ask == w.best_ask,
    ensures
        m.acts(v, rng).agent == m.acts(w, rng).agent,
        m.acts(v, rng).rng == m.acts(w, rng).rng,
        m.acts(v, rng).intents == m.acts(w, rng).intents,
{
}

/// An adversary sees the best prices, and only where it probes them: its bursts
/// and its orders at the edges do not depend on the market at all, and the
/// probes differ by the price they aim at and by nothing else.
pub proof fn law_adversary_sees_the_touch(m: AdversarialModel, v: BookView, w: BookView, rng: Pcg)
    ensures
        ({
            let a = m.acts(v, rng);
            let b = m.acts(w, rng);
            let attack = rng.below(4);
            let c = m.pending_cancel.len() as int;
            &&& attack <= 1 || (attack == 2 && v.best_ask == w.best_ask) || (attack == 3
                && v.best_bid == w.best_bid) ==> a.agent == b.agent && a.rng == b.rng && a.intents
                == b.intents
            &&& attack == 2 && v.best_ask is Some && w.best_ask is Some || attack == 3
                && v.best_bid is Some && w.best_bid is Some ==> {
                &&& a.agent == b.agent
                &&& a.rng == b.rng
                &&& match (a.intents[c], b.intents[c]) {
                    (
                        Intent::New { order_id, side, qty, tif, stp, .. },
                        Intent::New {
                            order_id: id,
                            side: there,
                            qty: lots,
                            tif: lasts,
                            stp: rule,
                            ..
                        },
                    ) => order_id == id && side == there && qty == lots && tif == lasts && stp
                        == rule,
                    _ => false,
                }
            }
        }),
{
}

} // verus!
