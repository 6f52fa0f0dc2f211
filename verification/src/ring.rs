//! SPSC ring between the I/O side and the engine thread, LMAX-style:
//! the decoder produces `InputEvent`s, the pinned engine thread consumes
//! them, and a second ring carries `OutputEvent`s back out.
//!
//! Built on `crossbeam-queue`'s pre-allocated `ArrayQueue` rather than a
//! hand-rolled ring: lock-free correctness without lock-free code of our own.
//! Concurrency lives at the edge of the system: the engine stays
//! single-threaded and never sees a thread or a lock.
//!
//! Nothing here waits. The two ends make one attempt at a time and say what
//! came of it; whoever owns the thread decides how to spin.

use crossbeam_queue::ArrayQueue;
use std::sync::atomic::{AtomicBool, Ordering};
use std::sync::Arc;
use vstd::prelude::*;

verus! {

/// `crossbeam_queue::ArrayQueue`, a bounded queue that many threads may push
/// to and pop from through a shared reference. What it holds at any moment is
/// up to all of them, so Verus sees nothing inside it.
#[verifier::external_type_specification]
#[verifier::external_body]
#[verifier::reject_recursive_types(T)]
pub struct ExArrayQueue<T>(ArrayQueue<T>);

/// The queue can be numbered and its slots (an element and a stamp each) can
/// be laid out in memory.
pub open spec fn queue_fits<T>(cap: usize) -> bool {
    &&& 0 < cap < usize::MAX / 2
    &&& cap * (vstd::layout::size_of::<T>() + 2 * vstd::layout::align_of::<T>() + 24) <= isize::MAX
}

/// `ArrayQueue::new` makes an empty queue of the given capacity. It panics on
/// a capacity of zero, on one that has no next power of two, and on one whose
/// slots exceed the address space; nothing is claimed of the queue itself.
pub assume_specification<T>[ ArrayQueue::<T>::new ](cap: usize) -> ArrayQueue<T>
    requires
        queue_fits::<T>(cap),
;

/// `ArrayQueue::push` appends the element, or hands back the very element it
/// was given. Which of the two depends on what other threads have pushed and
/// popped, and is not claimed.
pub assume_specification<T>[ ArrayQueue::<T>::push ](q: &ArrayQueue<T>, value: T) -> (r: Result<
    (),
    T,
>)
    ensures
        r matches Err(back) ==> back == value,
;

/// `ArrayQueue::pop` takes out the oldest element, if there is one. Whether
/// there is one, and which it is, depends on what other threads have pushed
/// and popped, and is not claimed.
pub assume_specification<T>[ ArrayQueue::<T>::pop ](q: &ArrayQueue<T>) -> Option<T>;

/// The end of a ring that puts in.
#[verifier::reject_recursive_types(T)]
pub struct Producer<T> {
    q: Arc<ArrayQueue<T>>,
    closed: Arc<AtomicBool>,
}

/// The end of a ring that takes out.
#[verifier::reject_recursive_types(T)]
pub struct Consumer<T> {
    q: Arc<ArrayQueue<T>>,
    closed: Arc<AtomicBool>,
}

/// The two ends belong to one ring: they share its queue and its flag.
pub closed spec fn connected<T>(p: Producer<T>, c: Consumer<T>) -> bool {
    p.q == c.q && p.closed == c.closed
}

/// The queue of a ring is one that `ArrayQueue::new` makes of `capacity`.
pub closed spec fn sized<T>(capacity: usize, p: Producer<T>) -> bool {
    call_ensures(ArrayQueue::<T>::new, (capacity,), *p.q)
}

/// The flag of a ring is one that `AtomicBool::new` makes of `false`: nobody
/// has hung up.
pub closed spec fn fresh_flag<T>(p: Producer<T>) -> bool {
    call_ensures(AtomicBool::new, (false,), *p.closed)
}

/// A bounded SPSC channel of the given capacity (pre-allocated once).
pub fn ring<T>(capacity: usize) -> (r: (Producer<T>, Consumer<T>))
    requires
        queue_fits::<T>(capacity),
    ensures
        connected(r.0, r.1),
        sized(capacity, r.0),
        fresh_flag(r.0),
{
    let q = Arc::new(ArrayQueue::new(capacity));
    let closed = Arc::new(AtomicBool::new(false));
    (Producer { q: q.clone(), closed: closed.clone() }, Consumer { q, closed })
}

impl<T> Producer<T> {
    /// `r` is what pushing `v` onto the queue of this ring came to.
    pub closed spec fn pushed(&self, v: T, r: Result<(), T>) -> bool {
        call_ensures(ArrayQueue::<T>::push, (&*self.q, v), r)
    }

    /// One attempt to put `v` in: where the ring is full, `v` comes back.
    pub fn try_send(&self, v: T) -> (r: Result<(), T>)
        ensures
            self.pushed(v, r),
            r matches Err(back) ==> back == v,
    {
        self.q.push(v)
    }

    /// The flag of this ring was set.
    pub closed spec fn hung_up(&self) -> bool {
        call_ensures(AtomicBool::store, (&*self.closed, true, Ordering::Release), ())
    }

    /// Hang up: no more will be sent.
    pub fn close(&self)
        ensures
            self.hung_up(),
    {
        self.closed.store(true, Ordering::Release);
    }
}

/// What an attempt to receive comes to.
#[derive(Debug)]
pub enum Received<T> {
    /// An element arrived.
    Item(T),
    /// The producer hung up and nothing is left.
    HungUp,
    /// Nothing yet: try again.
    Pending,
}

/// What to do after the first look into the queue.
#[derive(Debug)]
pub enum Look<T> {
    /// That is it.
    Done(Received<T>),
    /// The producer hung up: look once more, for what raced the flag.
    Again,
}

/// The first look: an element ends the attempt; without one, the flag decides
/// whether to look once more or to come back later.
#[verifier::allow_in_spec]
pub fn first_look<T>(popped: Option<T>, closed: bool) -> Look<T>
    returns
        (match popped {
            Some(v) => Look::Done(Received::Item(v)),
            None => if closed {
                Look::Again
            } else {
                Look::Done(Received::Pending)
            },
        }),
{
    match popped {
        Some(v) => Look::Done(Received::Item(v)),
        None => if closed {
            Look::Again
        } else {
            Look::Done(Received::Pending)
        },
    }
}

/// The last look: whatever raced the flag, or the end.
#[verifier::allow_in_spec]
pub fn last_look<T>(popped: Option<T>) -> Received<T>
    returns
        (match popped {
            Some(v) => Received::Item(v),
            None => Received::HungUp,
        }),
{
    match popped {
        Some(v) => Received::Item(v),
        None => Received::HungUp,
    }
}

impl<T> Consumer<T> {
    /// `r` is what popping the queue of this ring came to.
    pub closed spec fn popped(&self, r: Option<T>) -> bool {
        call_ensures(ArrayQueue::<T>::pop, (&*self.q,), r)
    }

    /// `closed` is what reading the flag of this ring came to.
    pub closed spec fn flagged(&self, closed: bool) -> bool {
        call_ensures(AtomicBool::load, (&*self.closed, Ordering::Acquire), closed)
    }

    /// One attempt to take something out.
    pub fn try_recv(&self) -> (r: Option<T>)
        ensures
            self.popped(r),
    {
        self.q.pop()
    }

    /// One attempt to receive, with an eye on the producer: an element, the
    /// end, or neither yet. The flag is only looked at after the queue was
    /// found empty, and the queue is looked at once more after the flag was
    /// found set, so nothing sent before hanging up is lost.
    pub fn poll(&self) -> (r: Received<T>)
        ensures
            match r {
                Received::Item(v) => self.popped(Some(v)),
                Received::HungUp => self.popped(None) && self.flagged(true),
                Received::Pending => self.popped(None) && self.flagged(false),
            },
    {
        let popped = self.q.pop();
        let closed = popped.is_none() && self.closed.load(Ordering::Acquire);
        match first_look(popped, closed) {
            Look::Done(r) => r,
            Look::Again => last_look(self.q.pop()),
        }
    }
}

/// Nothing that was taken out is lost, and the end is only told by the last look:
/// an element is received whatever the flag says; without one the attempt is
/// pending exactly where the producer has not hung up, and where it has, the
/// second look decides between an element and the end.
pub proof fn law_looks_lose_nothing<T>(v: T, closed: bool)
    ensures
        first_look(Some(v), closed) == Look::Done(Received::Item(v)),
        first_look(None::<T>, false) == Look::Done(Received::<T>::Pending),
        first_look(None::<T>, true) == Look::<T>::Again,
        last_look(Some(v)) == Received::Item(v),
        last_look(None::<T>) == Received::<T>::HungUp,
{
}

} // verus!
