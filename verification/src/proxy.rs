use std::collections::VecDeque;
use std::sync::Arc;
use std::time::{Duration, Instant};

use vstd::prelude::*;
use vstd::rwlock::{RwLock, RwLockPredicate};

use crate::platform::{
    duration_as_nanos, duration_from_parts, duration_new, instant_elapsed, instant_now,
    MAX_DURATION_NANOS, NANOS_PER_SECOND,
};
use crate::wake::WakeSignal;

verus! {

/// Reason an external application message was not accepted.
#[derive(Clone, Copy, Debug, Eq, PartialEq, Structural)]
pub enum EventProxySendErrorKind {
    /// The configured ingress capacity was already occupied.
    Full,
    /// The application runner no longer accepts external messages.
    Closed,
}

/// Error returned when an external application message is not accepted.
pub struct EventProxySendError<Message> {
    kind: EventProxySendErrorKind,
    message: Message,
}

impl<Message> EventProxySendError<Message> {
    /// Why the message was not accepted.
    pub closed spec fn error_kind(self) -> EventProxySendErrorKind {
        self.kind
    }

    /// The message that was not accepted.
    pub closed spec fn rejected_message(self) -> Message {
        self.message
    }

    /// Returns why the message was not accepted.
    pub fn kind(&self) -> (kind: EventProxySendErrorKind)
        ensures
            kind == self.error_kind(),
    {
        self.kind
    }

    /// Recovers the message that was not accepted.
    pub fn into_inner(self) -> (message: Message)
        ensures
            message == self.rejected_message(),
    {
        self.message
    }
}

/// Snapshot of bounded external-message ingress state.
#[derive(Clone, Copy, Debug, Eq, PartialEq)]
pub struct EventIngressMetrics {
    /// Maximum number of accepted messages waiting for the runner.
    pub capacity: usize,
    /// Number of accepted messages currently waiting for the runner.
    pub depth: usize,
    /// Largest observed waiting depth since runner construction.
    pub high_water_mark: usize,
    /// Number of new messages rejected because ingress was full.
    pub rejected: u64,
    /// Saturating number of messages accepted since runner construction.
    pub accepted: u64,
    /// Saturating number removed for serialized application update.
    pub dequeued: u64,
    /// Saturating sum of admission-to-dequeue latency for dequeued messages.
    pub total_queue_latency: Duration,
    /// Largest admission-to-dequeue latency observed so far.
    pub max_queue_latency: Duration,
    /// Whether the runner has stopped accepting external messages.
    pub closed: bool,
}

/// An accepted message and its admission time in clock nanoseconds.
pub struct QueuedMessage<Message> {
    /// The accepted message.
    pub message: Message,
    /// Clock reading when the message was accepted.
    pub admitted_at: u128,
}

/// `a + b`, saturating at `u64::MAX`.
pub open spec fn saturating_inc(a: u64) -> u64 {
    if a == u64::MAX {
        a
    } else {
        (a + 1) as u64
    }
}

/// `a - b` for durations in nanoseconds, saturating at zero.
pub open spec fn latency_between(admitted_at: u128, now: u128) -> u128 {
    if now >= admitted_at {
        (now - admitted_at) as u128
    } else {
        0
    }
}

/// `a + b` for durations in nanoseconds, saturating at the longest duration.
pub open spec fn duration_sum(a: u128, b: u128) -> u128 {
    if a + b > MAX_DURATION_NANOS {
        MAX_DURATION_NANOS
    } else {
        (a + b) as u128
    }
}

/// The larger of two values.
pub open spec fn larger(a: int, b: int) -> int {
    if a >= b {
        a
    } else {
        b
    }
}

/// Bounded FIFO of accepted messages together with its pressure counters.
pub struct EventIngressState<Message> {
    queue: VecDeque<QueuedMessage<Message>>,
    capacity: usize,
    high_water_mark: usize,
    rejected: u64,
    accepted: u64,
    dequeued: u64,
    total_queue_latency: u128,
    max_queue_latency: u128,
    closed: bool,
}

impl<Message> EventIngressState<Message> {
    /// Accepted messages waiting for the runner, oldest first.
    pub closed spec fn pending(self) -> Seq<Message> {
        self.queue@.map_values(|queued: QueuedMessage<Message>| queued.message)
    }

    /// Admission times of the waiting messages, oldest first.
    pub closed spec fn admission_times(self) -> Seq<u128> {
        self.queue@.map_values(|queued: QueuedMessage<Message>| queued.admitted_at)
    }

    /// Maximum number of waiting messages.
    pub closed spec fn spec_capacity(self) -> usize {
        self.capacity
    }

    /// Largest waiting depth observed.
    pub closed spec fn spec_high_water_mark(self) -> usize {
        self.high_water_mark
    }

    /// Number of rejected messages (saturating).
    pub closed spec fn spec_rejected(self) -> u64 {
        self.rejected
    }

    /// Number of accepted messages (saturating).
    pub closed spec fn spec_accepted(self) -> u64 {
        self.accepted
    }

    /// Number of dequeued messages (saturating).
    pub closed spec fn spec_dequeued(self) -> u64 {
        self.dequeued
    }

    /// Total latency of dequeued messages in nanoseconds (saturating).
    pub closed spec fn spec_total_queue_latency(self) -> u128 {
        self.total_queue_latency
    }

    /// Largest latency of a dequeued message in nanoseconds.
    pub closed spec fn spec_max_queue_latency(self) -> u128 {
        self.max_queue_latency
    }

    /// Whether new messages are refused.
    pub closed spec fn is_closed(self) -> bool {
        self.closed
    }

    /// The ingress invariant: a positive capacity bounds the queue, the
    /// high-water mark lies between the current depth and the capacity, a
    /// closed ingress holds nothing, latencies are representable durations
    /// with the largest no more than the total, and, until the accepted count
    /// saturates, every accepted message is either dequeued, waiting, or was
    /// dropped by closing.
    pub closed spec fn wf(self) -> bool {
        &&& self.capacity > 0
        &&& self.queue@.len() <= self.high_water_mark <= self.capacity
        &&& self.closed ==> self.queue@.len() == 0
        &&& self.total_queue_latency <= MAX_DURATION_NANOS
        &&& self.max_queue_latency <= self.total_queue_latency
        &&& self.accepted == u64::MAX || self.dequeued + self.queue@.len() <= self.accepted
        &&& forall|i: int|
            0 <= i < self.queue@.len() ==> #[trigger] self.queue@[i].admitted_at
                <= MAX_DURATION_NANOS
    }

    /// Each waiting message has exactly one admission time.
    pub proof fn lemma_times_match(self)
        ensures
            self.admission_times().len() == self.pending().len(),
    {
    }

    /// Creates an open, empty ingress with `capacity` slots.
    pub fn new(capacity: usize) -> (state: Self)
        requires
            capacity > 0,
        ensures
            state.wf(),
            state.pending() == Seq::<Message>::empty(),
            state.admission_times() == Seq::<u128>::empty(),
            state.spec_capacity() == capacity,
            state.spec_high_water_mark() == 0,
            state.spec_rejected() == 0,
            state.spec_accepted() == 0,
            state.spec_dequeued() == 0,
            state.spec_total_queue_latency() == 0,
            state.spec_max_queue_latency() == 0,
            !state.is_closed(),
    {
        let state = EventIngressState {
            queue: VecDeque::new(),
            capacity,
            high_water_mark: 0,
            rejected: 0,
            accepted: 0,
            dequeued: 0,
            total_queue_latency: 0,
            max_queue_latency: 0,
            closed: false,
        };
        assert(state.pending() =~= Seq::<Message>::empty());
        assert(state.admission_times() =~= Seq::<u128>::empty());
        state
    }

    /// Number of waiting messages.
    pub fn depth(&self) -> (depth: usize)
        ensures
            depth == self.pending().len(),
    {
        self.queue.len()
    }

    /// Accepts `message` at time `now` unless the ingress is closed or full.
    ///
    /// A refused message is handed back inside the error; a full ingress also
    /// counts the refusal. Nothing else changes on refusal.
    pub fn accept(&mut self, message: Message, now: u128) -> (result: Result<
        (),
        EventProxySendError<Message>,
    >)
        requires
            old(self).wf(),
            now <= MAX_DURATION_NANOS,
        ensures
            final(self).wf(),
            final(self).spec_capacity() == old(self).spec_capacity(),
            final(self).spec_dequeued() == old(self).spec_dequeued(),
            final(self).spec_total_queue_latency() == old(self).spec_total_queue_latency(),
            final(self).spec_max_queue_latency() == old(self).spec_max_queue_latency(),
            final(self).is_closed() == old(self).is_closed(),
            old(self).is_closed() ==> {
                &&& result matches Err(error)
                &&& error.error_kind() == EventProxySendErrorKind::Closed
                &&& error.rejected_message() == message
                &&& *final(self) == *old(self)
            },
            !old(self).is_closed() && old(self).pending().len() >= old(self).spec_capacity() ==> {
                &&& result matches Err(error)
                &&& error.error_kind() == EventProxySendErrorKind::Full
                &&& error.rejected_message() == message
                &&& final(self).pending() == old(self).pending()
                &&& final(self).admission_times() == old(self).admission_times()
                &&& final(self).spec_rejected() == saturating_inc(old(self).spec_rejected())
                &&& final(self).spec_accepted() == old(self).spec_accepted()
                &&& final(self).spec_high_water_mark() == old(self).spec_high_water_mark()
            },
            !old(self).is_closed() && old(self).pending().len() < old(self).spec_capacity() ==> {
                &&& result is Ok
                &&& final(self).pending() == old(self).pending().push(message)
                &&& final(self).admission_times() == old(self).admission_times().push(now)
                &&& final(self).spec_rejected() == old(self).spec_rejected()
                &&& final(self).spec_accepted() == saturating_inc(old(self).spec_accepted())
                &&& final(self).spec_high_water_mark() == larger(
                    old(self).spec_high_water_mark() as int,
                    old(self).pending().len() + 1int,
                )
            },
    {
        if self.closed {
            return Err(EventProxySendError { kind: EventProxySendErrorKind::Closed, message });
        }
        if self.queue.len() >= self.capacity {
            self.rejected = self.rejected.saturating_add(1);
            return Err(EventProxySendError { kind: EventProxySendErrorKind::Full, message });
        }
        self.queue.push_back(QueuedMessage { message, admitted_at: now });
        self.accepted = self.accepted.saturating_add(1);
        let depth = self.queue.len();
        if depth > self.high_water_mark {
            self.high_water_mark = depth;
        }
        proof {
            assert(self.pending() =~= old(self).pending().push(message));
            assert(self.admission_times() =~= old(self).admission_times().push(now));
        }
        Ok(())
    }

    /// Removes the oldest waiting message at time `now`, recording its latency.
    pub fn take_next(&mut self, now: u128) -> (message: Option<Message>)
        requires
            old(self).wf(),
            now <= MAX_DURATION_NANOS,
        ensures
            final(self).wf(),
            final(self).spec_capacity() == old(self).spec_capacity(),
            final(self).spec_high_water_mark() == old(self).spec_high_water_mark(),
            final(self).spec_rejected() == old(self).spec_rejected(),
            final(self).spec_accepted() == old(self).spec_accepted(),
            final(self).is_closed() == old(self).is_closed(),
            old(self).pending().len() == 0 ==> message is None && *final(self) == *old(self),
            old(self).pending().len() > 0 ==> {
                let latency = latency_between(old(self).admission_times()[0], now);
                &&& message == Some(old(self).pending()[0])
                &&& final(self).pending() == old(self).pending().drop_first()
                &&& final(self).admission_times() == old(self).admission_times().drop_first()
                &&& final(self).spec_dequeued() == saturating_inc(old(self).spec_dequeued())
                &&& final(self).spec_total_queue_latency() == duration_sum(
                    old(self).spec_total_queue_latency(),
                    latency,
                )
                &&& final(self).spec_max_queue_latency() == larger(
                    old(self).spec_max_queue_latency() as int,
                    latency as int,
                )
            },
    {
        if self.queue.len() == 0 {
            return None;
        }
        let ghost old_queue = self.queue@;
        let queued = match self.queue.pop_front() {
            Some(queued) => queued,
            None => {
                return None;
            },
        };
        let latency = if now >= queued.admitted_at {
            now - queued.admitted_at
        } else {
            0
        };
        proof {
            assert(old_queue[0] == queued);
            assert(old(self).admission_times()[0] == queued.admitted_at);
        }
        self.dequeued = self.dequeued.saturating_add(1);
        self.total_queue_latency = if self.total_queue_latency > MAX_DURATION_NANOS - latency {
            MAX_DURATION_NANOS
        } else {
            self.total_queue_latency + latency
        };
        if latency > self.max_queue_latency {
            self.max_queue_latency = latency;
        }
        proof {
            assert(self.pending() =~= old(self).pending().drop_first());
            assert(self.admission_times() =~= old(self).admission_times().drop_first());
        }
        Some(queued.message)
    }

    /// Refuses all further messages and hands back those still waiting.
    pub fn close(&mut self) -> (pending: VecDeque<QueuedMessage<Message>>)
        requires
            old(self).wf(),
        ensures
            final(self).wf(),
            final(self).is_closed(),
            final(self).pending().len() == 0,
            final(self).admission_times().len() == 0,
            pending@.map_values(|queued: QueuedMessage<Message>| queued.message)
                == old(self).pending(),
            final(self).spec_capacity() == old(self).spec_capacity(),
            final(self).spec_high_water_mark() == old(self).spec_high_water_mark(),
            final(self).spec_rejected() == old(self).spec_rejected(),
            final(self).spec_accepted() == old(self).spec_accepted(),
            final(self).spec_dequeued() == old(self).spec_dequeued(),
            final(self).spec_total_queue_latency() == old(self).spec_total_queue_latency(),
            final(self).spec_max_queue_latency() == old(self).spec_max_queue_latency(),
    {
        self.closed = true;
        let mut pending = VecDeque::new();
        std::mem::swap(&mut pending, &mut self.queue);
        proof {
            assert(self.pending() =~= Seq::<Message>::empty());
        }
        pending
    }
}

impl<Message> EventIngressState<Message> {
    /// Copies the counters into a public snapshot.
    pub fn snapshot(&self) -> (metrics: EventIngressMetrics)
        requires
            self.wf(),
        ensures
            metrics.capacity == self.spec_capacity(),
            metrics.depth == self.pending().len(),
            metrics.high_water_mark == self.spec_high_water_mark(),
            metrics.rejected == self.spec_rejected(),
            metrics.accepted == self.spec_accepted(),
            metrics.dequeued == self.spec_dequeued(),
            metrics.total_queue_latency == duration_from_parts(
                (self.spec_total_queue_latency() / NANOS_PER_SECOND) as u64,
                (self.spec_total_queue_latency() % NANOS_PER_SECOND) as u32,
            ),
            metrics.max_queue_latency == duration_from_parts(
                (self.spec_max_queue_latency() / NANOS_PER_SECOND) as u64,
                (self.spec_max_queue_latency() % NANOS_PER_SECOND) as u32,
            ),
            metrics.closed == self.is_closed(),
    {
        EventIngressMetrics {
            capacity: self.capacity,
            depth: self.queue.len(),
            high_water_mark: self.high_water_mark,
            rejected: self.rejected,
            accepted: self.accepted,
            dequeued: self.dequeued,
            total_queue_latency: duration_from_nanos(self.total_queue_latency),
            max_queue_latency: duration_from_nanos(self.max_queue_latency),
            closed: self.closed,
        }
    }
}

/// The duration of `nanos` nanoseconds, as whole seconds and the rest.
pub open spec fn nanos_duration(nanos: u128) -> Duration {
    duration_from_parts((nanos / NANOS_PER_SECOND) as u64, (nanos % NANOS_PER_SECOND) as u32)
}

/// The duration of `nanos` nanoseconds.
fn duration_from_nanos(nanos: u128) -> (duration: Duration)
    requires
        nanos <= MAX_DURATION_NANOS,
    ensures
        duration == duration_from_parts(
            (nanos / NANOS_PER_SECOND) as u64,
            (nanos % NANOS_PER_SECOND) as u32,
        ),
{
    let seconds = nanos / NANOS_PER_SECOND;
    let subsecond = nanos % NANOS_PER_SECOND;
    assert(seconds <= u64::MAX) by (nonlinear_arith)
        requires
            nanos <= MAX_DURATION_NANOS,
            seconds == nanos / NANOS_PER_SECOND,
    ;
    duration_new(seconds as u64, subsecond as u32)
}

/// The invariant the ingress lock maintains over its state.
pub struct IngressInvariant {
    /// Capacity the ingress was created with.
    pub capacity: usize,
}

impl<Message> RwLockPredicate<EventIngressState<Message>> for IngressInvariant {
    open spec fn inv(self, state: EventIngressState<Message>) -> bool {
        state.wf() && state.spec_capacity() == self.capacity
    }
}

/// Monotonic time source for admission timestamps.
pub enum IngressClock {
    /// Time elapsed since the given instant.
    System(Instant),
}

impl IngressClock {
    /// A clock that starts now.
    pub fn new() -> Self {
        IngressClock::System(instant_now())
    }

    /// Nanoseconds elapsed on this clock.
    pub fn now(&self) -> (nanos: u128)
        ensures
            nanos <= MAX_DURATION_NANOS,
    {
        match self {
            IngressClock::System(origin) => duration_as_nanos(instant_elapsed(origin)),
        }
    }
}

/// Ingress state shared by every proxy clone and the receiver.
pub struct EventIngress<Message> {
    state: RwLock<EventIngressState<Message>, IngressInvariant>,
    wake: Arc<WakeSignal>,
    clock: IngressClock,
}

impl<Message> EventIngress<Message> {
    /// Capacity the ingress was created with.
    pub closed spec fn capacity(&self) -> usize {
        self.state.pred().capacity
    }
}

/// A thread-safe, cloneable, bounded application message sender.
pub struct EventProxy<Message> {
    ingress: Arc<EventIngress<Message>>,
}

impl<Message> EventProxy<Message> {
    /// Capacity of the shared ingress.
    pub closed spec fn capacity(&self) -> usize {
        self.ingress.capacity()
    }

    /// Attempts to enqueue one external message without blocking on capacity.
    ///
    /// A successful send wakes a runner waiting through its wake signal. If the
    /// configured capacity is occupied, the new message is rejected without
    /// changing the existing FIFO queue; a rejected message is always handed
    /// back in the error.
    pub fn send(&self, message: Message) -> (result: Result<(), EventProxySendError<Message>>)
        ensures
            result matches Err(error) ==> error.rejected_message() == message,
    {
        let (mut state, handle) = self.ingress.state.acquire_write();
        let now = self.ingress.clock.now();
        let result = state.accept(message, now);
        handle.release_write(state);
        if result.is_ok() {
            self.ingress.wake.notify();
        }
        result
    }

    /// Returns an instantaneous snapshot of shared ingress pressure.
    pub fn metrics(&self) -> (metrics: EventIngressMetrics)
        ensures
            metrics.capacity == self.capacity(),
            metrics.capacity > 0,
            metrics.depth <= metrics.high_water_mark <= metrics.capacity,
            metrics.closed ==> metrics.depth == 0,
            metrics.accepted == u64::MAX || metrics.dequeued + metrics.depth <= metrics.accepted,
            exists|total: u128, largest: u128|
                largest <= total <= MAX_DURATION_NANOS && metrics.total_queue_latency
                    == nanos_duration(total) && metrics.max_queue_latency == nanos_duration(largest),
    {
        let read = self.ingress.state.acquire_read();
        let metrics = read.borrow().snapshot();
        proof {
            let state = read.view();
            let total = state.spec_total_queue_latency();
            let largest = state.spec_max_queue_latency();
            assert(largest <= total <= MAX_DURATION_NANOS && metrics.total_queue_latency
                == nanos_duration(total) && metrics.max_queue_latency == nanos_duration(largest));
        }
        read.release_read();
        metrics
    }
}

impl<Message> Clone for EventProxy<Message> {
    fn clone(&self) -> (proxy: Self)
        ensures
            proxy == *self,
            proxy.capacity() == self.capacity(),
    {
        EventProxy { ingress: Arc::clone(&self.ingress) }
    }
}

/// The runner's end of the ingress: takes accepted messages in FIFO order.
pub struct EventReceiver<Message> {
    ingress: Arc<EventIngress<Message>>,
}

impl<Message> EventReceiver<Message> {
    /// Capacity of the shared ingress.
    pub closed spec fn capacity(&self) -> usize {
        self.ingress.capacity()
    }

    /// Removes the oldest accepted message, if any, recording its latency.
    pub fn receive(&self) -> Option<Message> {
        let (mut state, handle) = self.ingress.state.acquire_write();
        let now = self.ingress.clock.now();
        let message = state.take_next(now);
        handle.release_write(state);
        message
    }

    /// Returns whether no accepted message is waiting.
    pub fn is_empty(&self) -> bool {
        let read = self.ingress.state.acquire_read();
        let empty = read.borrow().depth() == 0;
        read.release_read();
        empty
    }

    /// Stops accepting messages and drops those still waiting.
    ///
    /// Waiting messages are dropped after the ingress lock is released, so a
    /// message whose destructor uses a proxy cannot deadlock.
    pub fn close(&self) {
        let (mut state, handle) = self.ingress.state.acquire_write();
        let _pending = state.close();
        handle.release_write(state);
    }
}

/// Creates a connected proxy and receiver with `capacity` slots.
pub fn event_channel<Message>(capacity: usize, wake: Arc<WakeSignal>) -> (channel: (
    EventProxy<Message>,
    EventReceiver<Message>,
))
    requires
        capacity > 0,
    ensures
        channel.0.capacity() == capacity,
        channel.1.capacity() == capacity,
{
    event_channel_with_clock(capacity, wake, IngressClock::new())
}

/// Creates a connected proxy and receiver that timestamp with `clock`.
pub fn event_channel_with_clock<Message>(
    capacity: usize,
    wake: Arc<WakeSignal>,
    clock: IngressClock,
) -> (channel: (EventProxy<Message>, EventReceiver<Message>))
    requires
        capacity > 0,
    ensures
        channel.0.capacity() == capacity,
        channel.1.capacity() == capacity,
{
    let state = EventIngressState::new(capacity);
    let ingress = Arc::new(
        EventIngress {
            state: RwLock::new(state, Ghost(IngressInvariant { capacity })),
            wake,
            clock,
        },
    );
    (EventProxy { ingress: Arc::clone(&ingress) }, EventReceiver { ingress })
}

} // verus!
