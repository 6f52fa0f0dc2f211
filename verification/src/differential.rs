//! The differential harness.
//!
//! Structured operation streams go through both engines in lockstep. Any
//! difference in output events, any invariant violation, or any state-hash
//! mismatch is a divergence. None can happen, and that is proved here: the
//! harness always comes back clean.

use crate::agreement::{
    agree, all_placed_by, in_order, law_agreement_is_equality, law_engines_agree, ref_run,
};
use crate::book::OrderBook;
use crate::buffer::EventBuffer;
use crate::config::BookConfig;
use crate::events::{InputEvent, OutputEvent};
use crate::hash::book_hash;
use crate::laws::{
    law_buffer_suffices, law_empty_valid, law_never_crosses, law_step_valid, run,
};
use crate::model::{step, BookModel};
use crate::priority::{flat, lemma_range_empty};
use crate::reference::{meanings, ref_step, RefModel, ReferenceBook};
use crate::types::{OrderId, Price, Qty, SelfTradePrevention, SeqNo, Side, TimeInForce, TraderId};
use vstd::prelude::*;

verus! {

/// The lowest price of the grid that operations are shaped for.
pub const FUZZ_MIN_PRICE: i64 = 100;

/// Tiny config: capacity limits, grid edges, and level churn all within
/// reach of short inputs.
pub open spec fn fuzz_book() -> BookConfig {
    BookConfig { min_price: FUZZ_MIN_PRICE, tick_size: 1, num_levels: 128, max_live_orders: 64 }
}

/// The config that raw operations run on.
pub fn fuzz_config() -> (c: BookConfig)
    ensures
        c == fuzz_book(),
        c.min_price == 100,
        c.tick_size == 1,
        c.num_levels == 128,
        c.max_live_orders == 64,
        c.wf(),
{
    BookConfig { min_price: FUZZ_MIN_PRICE, tick_size: 1, num_levels: 128, max_live_orders: 64 }
}

/// One structured operation. Small pools on purpose: 8-bit ids collide
/// and get reused, 2-bit traders self-trade constantly.
#[derive(Copy, Clone, Debug)]
pub enum RawOp {
    New { id: u8, trader: u8, bid: bool, price_off: i16, qty: u64, tif: u8, stp: u8 },
    Cancel { id: u8, trader: u8 },
    Modify { id: u8, trader: u8, price_off: i16, qty: u64 },
}

/// The instruction that an operation stands for.
pub open spec fn event_of(op: RawOp, seq: u64) -> InputEvent {
    match op {
        RawOp::New { id, trader, bid, price_off, qty, tif, stp } => InputEvent::New {
            seq: SeqNo(seq),
            order_id: OrderId(id as u64),
            trader: TraderId((trader % 4) as u32),
            side: if bid {
                Side::Bid
            } else {
                Side::Ask
            },
            price: Price((FUZZ_MIN_PRICE + price_off) as i64),
            qty: Qty(qty),
            tif: if tif % 3 == 0 {
                TimeInForce::Gtc
            } else if tif % 3 == 1 {
                TimeInForce::Ioc
            } else {
                TimeInForce::Fok
            },
            stp: SelfTradePrevention::from_u8(stp % 4),
        },
        RawOp::Cancel { id, trader } => InputEvent::Cancel {
            seq: SeqNo(seq),
            order_id: OrderId(id as u64),
            trader: TraderId((trader % 4) as u32),
        },
        RawOp::Modify { id, trader, price_off, qty } => InputEvent::Modify {
            seq: SeqNo(seq),
            order_id: OrderId(id as u64),
            trader: TraderId((trader % 4) as u32),
            new_price: Price((FUZZ_MIN_PRICE + price_off) as i64),
            new_qty: Qty(qty),
        },
    }
}

/// What a raw operation stands for: an instruction of its own sort, with its id
/// and quantity, a price so far from 100, one of four traders, one of three
/// times in force and one of four self-trade rules; and with the number that it
/// is given.
pub proof fn law_operation_becomes_instruction(op: RawOp, seq: u64)
    ensures
        event_of(op, seq).seq() == SeqNo(seq),
        match (op, event_of(op, seq)) {
            (
                RawOp::New { id, trader, bid, price_off, qty, tif, stp },
                InputEvent::New {
                    order_id,
                    trader: by,
                    side,
                    price,
                    qty: lots,
                    tif: lasts,
                    stp: rule,
                    ..
                },
            ) => {
                &&& order_id.0 == id
                &&& by.0 == trader as int % 4
                &&& side == Side::Bid <==> bid
                &&& price.0 - 100 == price_off
                &&& lots.0 == qty
                &&& lasts == TimeInForce::Gtc <==> tif as int % 3 == 0
                &&& lasts == TimeInForce::Ioc <==> tif as int % 3 == 1
                &&& lasts == TimeInForce::Fok <==> tif as int % 3 == 2
                &&& rule == SelfTradePrevention::Disabled <==> stp as int % 4 == 0
                &&& rule == SelfTradePrevention::CancelResting <==> stp as int % 4 == 1
                &&& rule == SelfTradePrevention::CancelAggressor <==> stp as int % 4 == 2
                &&& rule == SelfTradePrevention::CancelBoth <==> stp as int % 4 == 3
            },
            (
                RawOp::Cancel { id, trader },
                InputEvent::Cancel { order_id, trader: by, .. },
            ) => order_id.0 == id && by.0 == trader as int % 4,
            (
                RawOp::Modify { id, trader, price_off, qty },
                InputEvent::Modify { order_id, trader: by, new_price, new_qty, .. },
            ) => {
                &&& order_id.0 == id
                &&& by.0 == trader as int % 4
                &&& new_price.0 - 100 == price_off
                &&& new_qty.0 == qty
            },
            _ => false,
        },
{
}

/// Operations are numbered as they come.
pub proof fn law_operations_are_numbered(ops: Seq<RawOp>)
    requires
        ops.len() <= u64::MAX,
    ensures
        numbered(ops).len() == ops.len(),
        forall|k: int|
            0 <= k < ops.len() ==> (#[trigger] numbered(ops)[k]).seq().0 == k && numbered(ops)[k]
                == event_of(ops[k], k as u64),
{
}

impl RawOp {
    /// The instruction that this operation stands for.
    pub fn to_event(&self, seq: u64) -> (ev: InputEvent)
        ensures
            ev == event_of(*self, seq),
    {
        match *self {
            RawOp::New { id, trader, bid, price_off, qty, tif, stp } => InputEvent::New {
                seq: SeqNo(seq),
                order_id: OrderId(id as u64),
                trader: TraderId((trader % 4) as u32),
                side: if bid {
                    Side::Bid
                } else {
                    Side::Ask
                },
                price: Price(FUZZ_MIN_PRICE + price_off as i64),
                qty: Qty(qty),
                tif: match tif % 3 {
                    0 => TimeInForce::Gtc,
                    1 => TimeInForce::Ioc,
                    _ => TimeInForce::Fok,
                },
                stp: SelfTradePrevention::from_u8(stp % 4),
            },
            RawOp::Cancel { id, trader } => InputEvent::Cancel {
                seq: SeqNo(seq),
                order_id: OrderId(id as u64),
                trader: TraderId((trader % 4) as u32),
            },
            RawOp::Modify { id, trader, price_off, qty } => InputEvent::Modify {
                seq: SeqNo(seq),
                order_id: OrderId(id as u64),
                trader: TraderId((trader % 4) as u32),
                new_price: Price(FUZZ_MIN_PRICE + price_off as i64),
                new_qty: Qty(qty),
            },
        }
    }
}

/// How the engines could part ways, and at which event.
#[derive(Copy, Clone, Debug)]
pub enum Divergence {
    /// The output streams differ.
    Output(usize),
    /// An invariant is violated.
    Invariant(usize, &'static str),
    /// The state hashes differ.
    StateHash(usize),
}

/// Whether two output streams are the same.
fn same_events(a: &[OutputEvent], b: &[OutputEvent]) -> (r: bool)
    ensures
        r == (a@ == b@),
{
    if a.len() != b.len() {
        return false;
    }
    let mut i: usize = 0;
    while i < a.len()
        invariant
            i <= a@.len() == b@.len(),
            forall|j: int| 0 <= j < i ==> a@[j] == b@[j],
        decreases a@.len() - i,
    {
        if a[i] != b[i] {
            return false;
        }
        i += 1;
    }
    proof {
        assert(a@ =~= b@);
    }
    true
}

/// Nothing tells the engines apart, or the first thing that does: the output
/// streams, then the invariants, then the state hashes.
pub open spec fn verdict(
    at: usize,
    same_output: bool,
    check: Result<(), &'static str>,
    same_hash: bool,
) -> Result<(), Divergence> {
    if !same_output {
        Err(Divergence::Output(at))
    } else if check is Err {
        Err(Divergence::Invariant(at, check->Err_0))
    } else if !same_hash {
        Err(Divergence::StateHash(at))
    } else {
        Ok(())
    }
}

/// Nothing is passed over: two engines are found alike exactly where they gave
/// the same outputs, the validator has nothing to say, and their hashes are the
/// same. Of several differences the first in that order is reported, with the
/// event it came at and what the validator said.
pub proof fn law_nothing_is_passed_over(
    at: usize,
    out: Seq<OutputEvent>,
    expected: Seq<OutputEvent>,
    check: Result<(), &'static str>,
    hash: u64,
    expected_hash: u64,
)
    ensures
        ({
            let r = verdict(at, out == expected, check, hash == expected_hash);
            &&& r is Ok <==> out == expected && check is Ok && hash == expected_hash
            &&& out != expected ==> r == Err::<(), Divergence>(Divergence::Output(at))
            &&& out == expected ==> (check matches Err(what) ==> r == Err::<(), Divergence>(
                Divergence::Invariant(at, what),
            ))
            &&& out == expected && check is Ok && hash != expected_hash ==> r == Err::<
                (),
                Divergence,
            >(Divergence::StateHash(at))
        }),
{
}

/// Compare what two engines gave and became at event number `at`.
pub fn judge(
    at: usize,
    out: &[OutputEvent],
    expected: &[OutputEvent],
    check: Result<(), &'static str>,
    hash: u64,
    expected_hash: u64,
) -> (r: Result<(), Divergence>)
    ensures
        r == verdict(at, out@ == expected@, check, hash == expected_hash),
        r is Ok <==> out@ == expected@ && check is Ok && hash == expected_hash,
        out@ != expected@ ==> r == Err::<(), Divergence>(Divergence::Output(at)),
        out@ == expected@ && check is Err ==> r == Err::<(), Divergence>(
            Divergence::Invariant(at, check->Err_0),
        ),
        out@ == expected@ && check is Ok && hash != expected_hash ==> r == Err::<(), Divergence>(
            Divergence::StateHash(at),
        ),
{
    if !same_events(out, expected) {
        return Err(Divergence::Output(at));
    }
    match check {
        Ok(()) => {},
        Err(what) => return Err(Divergence::Invariant(at, what)),
    }
    if hash != expected_hash {
        return Err(Divergence::StateHash(at));
    }
    Ok(())
}

/// Two engines in lockstep.
pub struct Lockstep {
    fast: OrderBook,
    oracle: ReferenceBook,
    buf: EventBuffer,
}

impl Lockstep {
    /// The book of the engine.
    pub closed spec fn fast(&self) -> BookModel {
        self.fast@
    }

    /// The book of the reference engine.
    pub closed spec fn oracle(&self) -> RefModel {
        self.oracle@
    }

    /// Both engines are valid and agree, and nothing they hold was placed
    /// after instruction number `n`.
    pub closed spec fn in_step(&self, n: u64) -> bool {
        &&& self.fast.wf()
        &&& self.fast@.wf()
        &&& self.fast@.uncrossed()
        &&& self.oracle@.wf()
        &&& agree(self.oracle@, self.fast@)
        &&& all_placed_by(self.oracle@, n)
        &&& self.buf.wf()
        &&& self.buf.limit() >= self.fast@.cfg.max_live_orders + 8
    }

    /// Two empty engines.
    pub fn new(cfg: BookConfig) -> (l: Self)
        requires
            cfg.wf(),
        ensures
            l.in_step(0),
            l.fast() == BookModel::empty(cfg),
            l.oracle() == RefModel::empty(cfg),
    {
        let l = Lockstep {
            fast: OrderBook::new(cfg),
            oracle: ReferenceBook::new(cfg),
            buf: EventBuffer::for_book(&cfg),
        };
        proof {
            let m = BookModel::empty(cfg);
            let r = RefModel::empty(cfg);
            law_empty_valid(cfg);
            lemma_range_empty(Side::Bid, m.bids, 0, m.bids.len() as int);
            lemma_range_empty(Side::Ask, m.asks, 0, m.asks.len() as int);
            assert(meanings(r.bids) =~= flat(Side::Bid, m.bids));
            assert(meanings(r.asks) =~= flat(Side::Ask, m.asks));
        }
        l
    }

    /// Feed one event to both engines and compare everything. It never finds
    /// a difference, as long as events come in the order of their sequence
    /// numbers.
    pub fn feed(&mut self, ev: InputEvent, at: usize) -> (r: Result<(), Divergence>)
        requires
            exists|n: u64| n <= ev.seq().0 && #[trigger] old(self).in_step(n),
        ensures
            r is Ok,
            final(self).in_step(ev.seq().0),
            final(self).fast() == step(old(self).fast(), ev).book,
            final(self).oracle() == ref_step(old(self).oracle(), ev).book,
    {
        let ghost m = self.fast@;
        let ghost q = self.oracle@;
        proof {
            let n = choose|n: u64| n <= ev.seq().0 && #[trigger] self.in_step(n);
            assert(all_placed_by(q, ev.seq().0));
            law_engines_agree(q, m, ev);
            law_step_valid(m, ev);
            law_never_crosses(m, ev);
            law_buffer_suffices(m, ev, self.buf.limit());
        }
        self.buf.clear();
        self.fast.apply(ev, &mut self.buf);
        let expected = self.oracle.apply(ev);
        proof {
            self.fast.lemma_wf_checkable();
            law_agreement_is_equality(self.oracle@, self.fast@);
        }
        let check = self.fast.validate();
        judge(
            at,
            self.buf.as_slice(),
            expected.as_slice(),
            check,
            self.fast.state_hash(),
            self.oracle.state_hash(),
        )
    }

    /// The state hash that both engines have.
    pub fn state_hash(&self) -> (h: u64)
        requires
            exists|n: u64| #[trigger] self.in_step(n),
        ensures
            h == book_hash(self.fast()),
            h == book_hash(self.oracle().shelved()),
    {
        proof {
            law_agreement_is_equality(self.oracle@, self.fast@);
        }
        self.fast.state_hash()
    }
}

/// Feed a stream to both engines. It comes back clean, with the state hash
/// that both of them end in.
pub fn compare(cfg: BookConfig, evs: &[InputEvent]) -> (r: Result<u64, Divergence>)
    requires
        cfg.wf(),
        in_order(evs@),
    ensures
        r == Ok::<u64, Divergence>(book_hash(run(BookModel::empty(cfg), evs@).book)),
        r == Ok::<u64, Divergence>(
            book_hash(ref_run(RefModel::empty(cfg), evs@).book.shelved()),
        ),
{
    let mut both = Lockstep::new(cfg);
    let mut i: usize = 0;
    let ghost mut last: u64 = 0;
    while i < evs.len()
        invariant
            i <= evs@.len(),
            in_order(evs@),
            both.in_step(last),
            both.fast() == run(BookModel::empty(cfg), evs@.take(i as int)).book,
            both.oracle() == ref_run(RefModel::empty(cfg), evs@.take(i as int)).book,
            i == 0 ==> last == 0,
            i > 0 ==> last == evs@[i - 1].seq().0,
        decreases evs@.len() - i,
    {
        let ev = evs[i];
        proof {
            if i > 0 {
                assert(evs@[i - 1].seq().0 <= evs@[i as int].seq().0);
            }
            assert(both.in_step(last));
            assert(evs@.take(i + 1).drop_last() =~= evs@.take(i as int));
        }
        match both.feed(ev, i) {
            Ok(()) => {},
            Err(d) => return Err(d),
        }
        proof {
            last = ev.seq().0;
        }
        i += 1;
    }
    proof {
        assert(evs@.take(i as int) =~= evs@);
        assert(both.in_step(last));
    }
    Ok(both.state_hash())
}

/// The instructions that raw operations stand for, numbered as they come.
pub open spec fn numbered(ops: Seq<RawOp>) -> Seq<InputEvent> {
    Seq::new(ops.len(), |k: int| event_of(ops[k], k as u64))
}

/// Feed raw operations to both engines, numbered as they come. It comes back
/// clean.
pub fn differential(ops: &[RawOp]) -> (r: Result<u64, Divergence>)
    ensures
        r == Ok::<u64, Divergence>(
            book_hash(run(BookModel::empty(fuzz_book()), numbered(ops@)).book),
        ),
{
    let mut evs: Vec<InputEvent> = Vec::new();
    let mut i: usize = 0;
    while i < ops.len()
        invariant
            i <= ops@.len(),
            evs@ == numbered(ops@.take(i as int)),
        decreases ops@.len() - i,
    {
        let ev = ops[i].to_event(i as u64);
        evs.push(ev);
        i += 1;
        proof {
            assert(evs@ =~= numbered(ops@.take(i as int)));
        }
    }
    proof {
        assert(ops@.take(i as int) =~= ops@);
    }
    compare(fuzz_config(), evs.as_slice())
}

} // verus!
