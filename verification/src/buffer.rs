//! Pre-allocated output event buffer.
//!
//! `OrderBook::apply` is forbidden to allocate, so the caller hands it a
//! buffer sized once at startup. Worst case for a single input event is
//! bounded: every live order can contribute at most one event (a fill or
//! an STP cancel), plus the taker's own Ack / Cancelled / Rejected, so
//! `max_live_orders + 8` can never overflow.

use crate::config::BookConfig;
use crate::events::OutputEvent;
use vstd::prelude::*;

verus! {

/// The first `limit` elements of `s`, or all of it when it is shorter.
pub open spec fn clip<A>(s: Seq<A>, limit: nat) -> Seq<A> {
    if s.len() <= limit {
        s
    } else {
        s.take(limit as int)
    }
}

/// An output log of bounded length.
pub struct EventBuffer {
    buf: Vec<OutputEvent>,
    /// How many events the buffer accepts before it drops.
    limit: usize,
}

impl View for EventBuffer {
    type V = Seq<OutputEvent>;

    closed spec fn view(&self) -> Seq<OutputEvent> {
        self.buf@
    }
}

impl EventBuffer {
    /// How many events the buffer accepts before it drops.
    pub closed spec fn limit(&self) -> nat {
        self.limit as nat
    }

    /// The buffer never holds more than it was sized for.
    pub open spec fn wf(&self) -> bool {
        self@.len() <= self.limit()
    }

    /// An empty buffer for `n` events.
    pub fn with_capacity(n: usize) -> (b: Self)
        ensures
            b.wf(),
            b@ == Seq::<OutputEvent>::empty(),
            b.limit() == n,
    {
        EventBuffer { buf: Vec::with_capacity(n), limit: n }
    }

    /// A buffer guaranteed large enough for any single `apply` on a book
    /// with this config.
    pub fn for_book(cfg: &BookConfig) -> (b: Self)
        requires
            cfg.max_live_orders + 8 <= usize::MAX,
        ensures
            b.wf(),
            b@ == Seq::<OutputEvent>::empty(),
            b.limit() == cfg.max_live_orders + 8,
    {
        Self::with_capacity(cfg.max_live_orders as usize + 8)
    }

    /// Never allocates: within the limit this is a plain write + length
    /// bump. Overflow is impossible when the buffer was sized by
    /// [`EventBuffer::for_book`]; a mis-sized buffer drops the event
    /// rather than allocating or panicking.
    pub fn push(&mut self, ev: OutputEvent)
        requires
            old(self).wf(),
        ensures
            final(self).wf(),
            final(self).limit() == old(self).limit(),
            final(self)@ == clip(old(self)@.push(ev), old(self).limit()),
            old(self)@.len() < old(self).limit() ==> final(self)@ == old(self)@.push(ev),
            old(self)@.len() == old(self).limit() ==> final(self)@ == old(self)@,
    {
        if self.buf.len() < self.limit {
            self.buf.push(ev);
        } else {
            assert(self.buf@.push(ev).take(self.limit as int) =~= self.buf@);
        }
    }

    /// Forget every event, keep the room.
    pub fn clear(&mut self)
        ensures
            final(self).wf(),
            final(self).limit() == old(self).limit(),
            final(self)@ == Seq::<OutputEvent>::empty(),
    {
        self.buf.clear();
    }

    /// The events, oldest first.
    pub fn as_slice(&self) -> (s: &[OutputEvent])
        ensures
            s@ == self@,
    {
        self.buf.as_slice()
    }

    /// How many events the buffer holds.
    pub fn len(&self) -> (n: usize)
        ensures
            n == self@.len(),
    {
        self.buf.len()
    }

    /// Whether the buffer holds no event.
    pub fn is_empty(&self) -> (r: bool)
        ensures
            r == (self@.len() == 0),
    {
        self.buf.len() == 0
    }
}

/// What is clipped is the front, as long as it may be.
pub proof fn law_clip_is_the_front<A>(s: Seq<A>, limit: nat)
    ensures
        clip(s, limit).is_prefix_of(s),
        clip(s, limit).len() == if s.len() < limit {
            s.len()
        } else {
            limit
        },
{
    assert(s.subrange(0, s.len() as int) =~= s);
}

/// Appending one event at a time clips exactly as appending all of them.
pub proof fn lemma_clip_append<A>(base: Seq<A>, a: Seq<A>, b: Seq<A>, limit: nat)
    ensures
        clip(clip(base + a, limit) + b, limit) == clip(base + (a + b), limit),
{
    let whole = base + (a + b);
    assert(clip(clip(base + a, limit) + b, limit) =~= clip(whole, limit));
}

} // verus!
