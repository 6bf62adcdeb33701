//! Runtime configuration, visual-work requests and the reports of one turn.

use std::time::Duration;

use vstd::prelude::*;

use crate::proxy::EventProxy;
use crate::terminal::WriteOutcome;

verus! {

/// Default number of external messages that may wait for the runner.
pub const DEFAULT_EVENT_INGRESS_CAPACITY: usize = 1024;

/// Largest number of work items one turn of the runner performs.
pub const MAX_WORK_PER_TURN: usize = 1024;

/// Largest number of application updates one turn of the runner performs.
pub const MAX_MESSAGES_PER_TURN: usize = 768;

/// Visual work requested after a change, from least to most.
#[derive(Clone, Copy, Debug, Default, Eq, Hash, PartialEq, Structural)]
pub enum Invalidation {
    /// Nothing to redraw.
    #[default]
    Nothing,
    /// Repaint with the current geometry.
    Paint,
    /// Recompute geometry, then repaint.
    Layout,
    /// Rebuild structure, then lay out and repaint.
    Recompose,
}

/// Strength of a request: `Nothing` < `Paint` < `Layout` < `Recompose`.
pub open spec fn strength(invalidation: Invalidation) -> int {
    match invalidation {
        Invalidation::Nothing => 0,
        Invalidation::Paint => 1,
        Invalidation::Layout => 2,
        Invalidation::Recompose => 3,
    }
}

/// The stronger of two requests.
pub open spec fn stronger(a: Invalidation, b: Invalidation) -> Invalidation {
    if strength(a) >= strength(b) {
        a
    } else {
        b
    }
}

impl Invalidation {
    /// Coalesces `requested` into this request, keeping the stronger one.
    pub fn request(&mut self, requested: Invalidation)
        ensures
            *final(self) == stronger(*old(self), requested),
    {
        if Self::rank(requested) > Self::rank(*self) {
            *self = requested;
        }
    }

    /// Returns the strength of a request.
    fn rank(invalidation: Invalidation) -> (rank: u8)
        ensures
            rank == strength(invalidation),
    {
        match invalidation {
            Invalidation::Nothing => 0,
            Invalidation::Paint => 1,
            Invalidation::Layout => 2,
            Invalidation::Recompose => 3,
        }
    }
}

/// Distinct requests have distinct strengths.
pub proof fn lemma_strength_injective(a: Invalidation, b: Invalidation)
    ensures
        strength(a) == strength(b) <==> a == b,
{
}

/// Coalescing is a join: it keeps the stronger request, does not depend on
/// order, absorbs repeats, and groups freely.
pub proof fn lemma_request_is_a_join(a: Invalidation, b: Invalidation, c: Invalidation)
    ensures
        strength(stronger(a, b)) >= strength(a),
        strength(stronger(a, b)) >= strength(b),
        stronger(a, b) == stronger(b, a),
        stronger(a, a) == a,
        stronger(stronger(a, b), c) == stronger(a, stronger(b, c)),
        stronger(a, Invalidation::Nothing) == a,
{
}

/// Explicit requests available while applying an application message.
pub struct UpdateContext<Message> {
    invalidation: Invalidation,
    proxy: EventProxy<Message>,
}

impl<Message> UpdateContext<Message> {
    /// The visual work requested so far.
    pub closed spec fn requested(self) -> Invalidation {
        self.invalidation
    }

    /// The sender handed out by [`Self::event_proxy`].
    pub closed spec fn proxy(self) -> EventProxy<Message> {
        self.proxy
    }

    /// Creates a context that has requested nothing.
    pub fn new(proxy: EventProxy<Message>) -> (context: Self)
        ensures
            context.requested() == Invalidation::Nothing,
            context.proxy() == proxy,
    {
        UpdateContext { invalidation: Invalidation::Nothing, proxy }
    }

    /// Requests visual work, coalescing this with stronger requests in the same turn.
    pub fn invalidate(&mut self, invalidation: Invalidation)
        ensures
            final(self).requested() == stronger(old(self).requested(), invalidation),
            final(self).proxy() == old(self).proxy(),
    {
        self.invalidation.request(invalidation);
    }

    /// Returns a cloneable sender for work that outlives this update.
    pub fn event_proxy(&self) -> (proxy: EventProxy<Message>)
        ensures
            proxy == self.proxy(),
            proxy.capacity() == self.proxy().capacity(),
    {
        self.proxy.clone()
    }

    /// Returns the coalesced request of this update.
    pub fn requested_invalidation(&self) -> (invalidation: Invalidation)
        ensures
            invalidation == self.requested(),
    {
        self.invalidation
    }
}

/// Configuration for application runtime construction.
///
/// External proxy ingress defaults to a capacity of 1,024 messages.
#[derive(Clone, Copy, Debug, Eq, PartialEq, Structural)]
pub struct RuntimeOptions {
    event_ingress_capacity: usize,
}

impl RuntimeOptions {
    /// The configured ingress capacity.
    pub closed spec fn capacity(self) -> usize {
        self.event_ingress_capacity
    }

    /// Options are valid when the capacity is positive.
    pub closed spec fn wf(self) -> bool {
        self.event_ingress_capacity > 0
    }

    /// Options are determined by their capacity.
    pub proof fn lemma_capacity_identifies(self, other: Self)
        ensures
            self.capacity() == other.capacity() <==> self == other,
    {
    }

    /// Creates the default bounded runtime configuration.
    pub fn new() -> (options: Self)
        ensures
            options.wf(),
            options.capacity() == DEFAULT_EVENT_INGRESS_CAPACITY,
    {
        Self::default()
    }

    /// Sets the maximum number of external proxy messages waiting for updates.
    pub fn with_event_ingress_capacity(self, capacity: usize) -> (options: Self)
        requires
            capacity > 0,
        ensures
            options.wf(),
            options.capacity() == capacity,
    {
        RuntimeOptions { event_ingress_capacity: capacity }
    }

    /// Returns the external proxy ingress capacity.
    pub fn event_ingress_capacity(&self) -> (capacity: usize)
        requires
            self.wf(),
        ensures
            capacity == self.capacity(),
            capacity > 0,
    {
        self.event_ingress_capacity
    }
}

impl Default for RuntimeOptions {
    fn default() -> (options: Self)
        ensures
            options.wf(),
            options.capacity() == DEFAULT_EVENT_INGRESS_CAPACITY,
    {
        RuntimeOptions { event_ingress_capacity: DEFAULT_EVENT_INGRESS_CAPACITY }
    }
}

/// Summary of messages and tasks processed in one drain operation.
#[derive(Clone, Copy, Debug, Eq, PartialEq, Structural)]
pub struct ProcessReport {
    /// Number of serialized application updates performed.
    pub updates: usize,
    /// Number of command futures completed.
    pub completed_tasks: usize,
    /// Coalesced visual work still requested.
    pub invalidation: Invalidation,
    /// Whether shutdown was requested.
    pub quitting: bool,
    /// Whether the fairness budget was exhausted and immediate work may remain.
    pub budget_exhausted: bool,
}

/// Non-message details from one UI event dispatch.
#[derive(Clone, Copy, Debug, Eq, PartialEq, Structural)]
pub struct DispatchReport {
    /// Number of application messages emitted by handlers.
    pub messages: usize,
    /// Whether a handler marked the event handled.
    pub handled: bool,
    /// Whether a handler prevented default UI behavior.
    pub default_prevented: bool,
    /// Whether event propagation was stopped.
    pub propagation_stopped: bool,
}

/// Result of a requested headless render.
#[derive(Clone, Copy, Debug, Eq, PartialEq, Structural)]
pub enum HeadlessRenderOutcome {
    /// No invalidation was pending, so no view was built.
    Idle,
    /// A prepared UI frame was committed.
    Committed,
}

/// Result of attempting to render through a terminal session.
#[derive(Clone, Copy, Debug, Eq, PartialEq, Structural)]
pub enum TerminalRenderOutcome {
    /// No invalidation was pending, so no frame was prepared.
    Idle,
    /// The frame was accepted and committed.
    Applied,
    /// The backend accepted no bytes; the prepared frame was discarded.
    Deferred,
    /// Output may be partial; the frame was discarded and full repaint was forced.
    StateUnknown,
}

/// Timing and logical repaint work recorded for one opt-in render attempt.
///
/// The selected phases do not necessarily sum exactly to [`Self::total`],
/// which also includes orchestration and timing overhead.
#[derive(Clone, Copy, Debug, Eq, PartialEq)]
pub struct RenderTimings {
    /// Complete non-idle render attempt.
    pub total: Duration,
    /// Application view construction before preparation and after commit.
    pub view_construction: Duration,
    /// Retained-state staging and reconciliation.
    pub staging_reconciliation: Duration,
    /// Layout construction, computation, geometry assignment, and cursor resolution.
    pub layout: Duration,
    /// Logical frame allocation and painting.
    pub paint: Duration,
    /// Terminal-independent frame comparison and patch construction.
    pub diff: Duration,
    /// Number of logical repaint regions cleared and replayed.
    pub repaint_regions: usize,
    /// Number of terminal cells covered by the logical repaint regions.
    pub repaint_cells: u32,
    /// Backend validation, serialization, writer calls, and flush.
    ///
    /// This is `None` for headless rendering and empty patches.
    pub terminal_serialization_and_write: Option<Duration>,
    /// Transactional retained-tree and renderer commit.
    ///
    /// This is `None` when a prepared frame was discarded.
    pub commit: Option<Duration>,
    /// Focus and hover refresh performed after a successful commit.
    pub post_commit: Option<Duration>,
}

/// Time spent in the phases of preparing one UI frame.
#[derive(Clone, Copy, Debug, Eq, PartialEq)]
pub struct UiPreparationTimings {
    /// Retained-state staging and reconciliation.
    pub staging_reconciliation: Duration,
    /// Layout construction, computation, geometry assignment, and cursor resolution.
    pub layout: Duration,
    /// Logical frame allocation and painting.
    pub paint: Duration,
    /// Terminal-independent frame comparison and patch construction.
    pub diff: Duration,
    /// Number of logical repaint regions cleared and replayed.
    pub repaint_regions: usize,
    /// Number of terminal cells covered by the logical repaint regions.
    pub repaint_cells: u32,
}

/// Assembles the timings of one render attempt from its measured phases.
pub fn render_timings(
    total: Duration,
    view_construction: Duration,
    preparation: UiPreparationTimings,
    terminal_serialization_and_write: Option<Duration>,
    commit: Option<Duration>,
    post_commit: Option<Duration>,
) -> (timings: RenderTimings)
    ensures
        timings == (RenderTimings {
            total,
            view_construction,
            staging_reconciliation: preparation.staging_reconciliation,
            layout: preparation.layout,
            paint: preparation.paint,
            diff: preparation.diff,
            repaint_regions: preparation.repaint_regions,
            repaint_cells: preparation.repaint_cells,
            terminal_serialization_and_write,
            commit,
            post_commit,
        }),
{
    RenderTimings {
        total,
        view_construction,
        staging_reconciliation: preparation.staging_reconciliation,
        layout: preparation.layout,
        paint: preparation.paint,
        diff: preparation.diff,
        repaint_regions: preparation.repaint_regions,
        repaint_cells: preparation.repaint_cells,
        terminal_serialization_and_write,
        commit,
        post_commit,
    }
}

/// An ordinary render outcome accompanied by opt-in phase timings.
#[derive(Clone, Copy, Debug, Eq, PartialEq)]
pub struct TimedRender<Outcome> {
    /// Ordinary render outcome.
    pub outcome: Outcome,
    /// Recorded phases, or `None` when the render was visually idle.
    pub timings: Option<RenderTimings>,
}

/// Which queue the runner takes its next application message from.
#[derive(Clone, Copy, Debug, Eq, PartialEq, Structural)]
pub enum MessageSource {
    /// The runner's own queue of messages from handlers and commands.
    Internal,
    /// The bounded ingress fed by event proxies.
    External,
}

/// The source the runner reads next and the preference it keeps afterwards.
///
/// When both queues hold messages the runner alternates between them; a queue
/// that is empty is skipped; when both are empty nothing is read and the
/// preference is kept.
pub open spec fn next_source_spec(
    prefer_external: bool,
    internal_ready: bool,
    external_ready: bool,
) -> (Option<MessageSource>, bool) {
    if prefer_external {
        if external_ready {
            (Some(MessageSource::External), false)
        } else if internal_ready {
            (Some(MessageSource::Internal), true)
        } else {
            (None, prefer_external)
        }
    } else {
        if internal_ready {
            (Some(MessageSource::Internal), true)
        } else if external_ready {
            (Some(MessageSource::External), false)
        } else {
            (None, prefer_external)
        }
    }
}

/// Chooses the queue the runner reads next, as its fairness rule prescribes.
pub fn next_message_source(
    prefer_external: bool,
    internal_ready: bool,
    external_ready: bool,
) -> (choice: (Option<MessageSource>, bool))
    ensures
        choice == next_source_spec(prefer_external, internal_ready, external_ready),
{
    if prefer_external {
        if external_ready {
            return (Some(MessageSource::External), false);
        }
        if internal_ready {
            return (Some(MessageSource::Internal), true);
        }
        return (None, prefer_external);
    }
    if internal_ready {
        return (Some(MessageSource::Internal), true);
    }
    if external_ready {
        return (Some(MessageSource::External), false);
    }
    (None, prefer_external)
}

/// When both queues stay ready, two consecutive reads take one message from
/// each queue, so neither queue can starve the other.
pub proof fn lemma_ready_sources_alternate(prefer_external: bool)
    ensures
        ({
            let first = next_source_spec(prefer_external, true, true);
            let second = next_source_spec(first.1, true, true);
            first.0 is Some && second.0 is Some && first.0 != second.0
        }),
{
}

/// Whether the fairness budget of one turn is spent.
pub open spec fn budget_spent(work: int, updates: int) -> bool {
    work >= MAX_WORK_PER_TURN || updates >= MAX_MESSAGES_PER_TURN
}

/// Number of futures the runner may poll after `work` items in one turn.
pub open spec fn poll_allowance(work: int) -> int {
    let remaining = if work >= MAX_WORK_PER_TURN {
        0
    } else {
        MAX_WORK_PER_TURN - work
    };
    if remaining < 256 {
        remaining
    } else {
        256
    }
}

/// Returns whether the fairness budget of one turn is spent.
pub fn is_budget_spent(work: usize, updates: usize) -> (spent: bool)
    ensures
        spent == budget_spent(work as int, updates as int),
{
    work >= MAX_WORK_PER_TURN || updates >= MAX_MESSAGES_PER_TURN
}

/// Returns how many futures the runner may poll after `work` items in one turn.
pub fn poll_limit(work: usize) -> (limit: usize)
    ensures
        limit == poll_allowance(work as int),
        limit <= 256,
{
    let remaining = MAX_WORK_PER_TURN.saturating_sub(work);
    if remaining < 256 {
        remaining
    } else {
        256
    }
}

/// How the runner settles a prepared terminal frame once its write finished.
#[derive(Clone, Copy, Debug, Eq, PartialEq, Structural)]
pub struct WriteSettlement {
    /// Outcome reported for the render attempt.
    pub outcome: TerminalRenderOutcome,
    /// Whether the prepared frame is committed; otherwise it is discarded.
    pub commit: bool,
    /// Whether the renderer forgets its committed frame, forcing a full repaint.
    pub force_full_repaint: bool,
    /// Visual work still pending afterwards, if the commit succeeds.
    pub pending: Invalidation,
}

/// The settlement of a frame whose write reported `written`, with `pending`
/// visual work: an applied frame is committed and clears the work, a deferred
/// one is discarded and the work stays pending, and output in an unknown state
/// discards the frame, forces a full repaint and keeps at least a repaint
/// pending.
pub open spec fn settlement(pending: Invalidation, written: WriteOutcome) -> WriteSettlement {
    match written {
        WriteOutcome::Applied => WriteSettlement {
            outcome: TerminalRenderOutcome::Applied,
            commit: true,
            force_full_repaint: false,
            pending: Invalidation::Nothing,
        },
        WriteOutcome::Deferred => WriteSettlement {
            outcome: TerminalRenderOutcome::Deferred,
            commit: false,
            force_full_repaint: false,
            pending,
        },
        WriteOutcome::StateUnknown => WriteSettlement {
            outcome: TerminalRenderOutcome::StateUnknown,
            commit: false,
            force_full_repaint: true,
            pending: stronger(pending, Invalidation::Paint),
        },
    }
}

/// Decides what happens to a prepared frame after its write.
pub fn settle_write(pending: Invalidation, written: WriteOutcome) -> (settled: WriteSettlement)
    ensures
        settled == settlement(pending, written),
{
    match written {
        WriteOutcome::Applied => WriteSettlement {
            outcome: TerminalRenderOutcome::Applied,
            commit: true,
            force_full_repaint: false,
            pending: Invalidation::Nothing,
        },
        WriteOutcome::Deferred => WriteSettlement {
            outcome: TerminalRenderOutcome::Deferred,
            commit: false,
            force_full_repaint: false,
            pending,
        },
        WriteOutcome::StateUnknown => {
            let mut after = pending;
            after.request(Invalidation::Paint);
            WriteSettlement {
                outcome: TerminalRenderOutcome::StateUnknown,
                commit: false,
                force_full_repaint: true,
                pending: after,
            }
        },
    }
}

/// Visual work pending after a commit failed: the renderer forgets its
/// committed frame and at least a repaint stays pending.
pub fn after_failed_commit(pending: Invalidation) -> (after: Invalidation)
    ensures
        after == stronger(pending, Invalidation::Paint),
{
    let mut after = pending;
    after.request(Invalidation::Paint);
    after
}

/// Whether a render attempt prepares a frame at all.
pub fn render_needed(pending: Invalidation) -> (needed: bool)
    ensures
        needed == (pending != Invalidation::Nothing),
{
    pending != Invalidation::Nothing
}

/// Visual work after one more request when `condition` holds.
pub open spec fn request_if(pending: Invalidation, condition: bool, requested: Invalidation) -> Invalidation {
    if condition {
        stronger(pending, requested)
    } else {
        pending
    }
}

/// Visual work pending once the runner has caught up with its terminal: a
/// changed width policy or viewport needs layout, and a repaint the terminal
/// requires needs at least paint.
pub fn synchronized_invalidation(
    pending: Invalidation,
    width_policy_changed: bool,
    repaint_required: bool,
    viewport_changed: bool,
) -> (after: Invalidation)
    ensures
        after == request_if(
            request_if(
                request_if(pending, width_policy_changed, Invalidation::Layout),
                repaint_required,
                Invalidation::Paint,
            ),
            viewport_changed,
            Invalidation::Layout,
        ),
{
    let mut after = pending;
    if width_policy_changed {
        after.request(Invalidation::Layout);
    }
    if repaint_required {
        after.request(Invalidation::Paint);
    }
    if viewport_changed {
        after.request(Invalidation::Layout);
    }
    after
}

/// A frame is committed exactly when its write was applied; a write whose
/// result is unknown always leaves a repaint pending and forces a full
/// repaint; a deferred write changes nothing the runner tracks, so the same
/// work is attempted again.
pub proof fn lemma_write_settlement(pending: Invalidation, written: WriteOutcome)
    ensures
        settlement(pending, written).commit == (written == WriteOutcome::Applied),
        written == WriteOutcome::StateUnknown ==> {
            &&& settlement(pending, written).force_full_repaint
            &&& strength(settlement(pending, written).pending) >= strength(Invalidation::Paint)
            &&& strength(settlement(pending, written).pending) >= strength(pending)
        },
        written == WriteOutcome::Deferred ==> settlement(pending, written).pending == pending
            && !settlement(pending, written).force_full_repaint,
        settlement(pending, written).commit ==> settlement(pending, written).pending
            == Invalidation::Nothing,
{
}

} // verus!
