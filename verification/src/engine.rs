//! The command loop's decisions: a command is checked, the screen is
//! captured and analysed, actions are planned and checked; carrying them
//! out is left to the caller, which then reports back.

use vstd::prelude::*;
use vstd::string::StringExecFns;
use crate::ai::{AICoordinator, ScreenAnalysis, analysis_of, lemma_placed_center_fits, planned};
use crate::capture::{CaptureConfig, CaptureError, ScreenCapture, is_synthetic_screen};
use crate::image::Image;
use crate::safety::{LunaAction, SafetySystem, blocked_pattern_texts, regex_set_compiles};

verus! {

/// Counters of the commands handled.
pub struct ProcessingStats {
    pub commands_processed: u64,
    pub actions_executed: u64,
    pub safety_blocks: u64,
    pub total_processing_time_ms: u64,
}

/// A command ready to run: the analysis of the screen it was planned on
/// and the actions planned.
pub struct CommandPlan {
    pub analysis: ScreenAnalysis,
    pub actions: Vec<LunaAction>,
}

/// Why a command or an action was not carried out.
pub enum CoreError {
    /// The command matched a refused pattern or was too long.
    UnsafeCommand(String),
    /// The planned action at `index` failed the safety checks.
    UnsafeAction { plan: CommandPlan, index: usize },
    /// A single action asked for directly failed the safety checks.
    ActionRefused(LunaAction),
    /// The screen could not be captured.
    Capture(CaptureError),
}

/// `a + 1`, or the largest `u64` when that overflows.
pub open spec fn bump(a: u64) -> u64 {
    if a < u64::MAX {
        (a + 1) as u64
    } else {
        a
    }
}

/// `a + b`, or the largest `u64` when that overflows.
pub open spec fn sum_capped(a: u64, b: int) -> u64 {
    if a + b > u64::MAX {
        u64::MAX
    } else {
        (a + b) as u64
    }
}

/// The counters as a tuple: commands processed, actions executed, safety
/// blocks, total processing time.
pub open spec fn stats_view(s: ProcessingStats) -> (u64, u64, u64, u64) {
    (s.commands_processed, s.actions_executed, s.safety_blocks, s.total_processing_time_ms)
}

/// What the core tells its subscribers, in the order it happens: a command
/// came in; the screen was analysed (how many elements, how sure in
/// percent); actions were planned (how many); the planned action at
/// `index` ran, or failed.
#[derive(Debug)]
pub enum CoreEvent {
    CommandReceived { command: String },
    AnalysisComplete { element_count: usize, confidence: u32 },
    ActionsPlanned { action_count: usize },
    ActionExecuted { index: usize, success: bool },
}

/// The coordinator of analysis, capture, planning and the safety gate.
pub struct LunaCore {
    ai: AICoordinator,
    capture: ScreenCapture,
    safety: SafetySystem,
    stats: ProcessingStats,
    subscribers: u64,
    outbox: Vec<CoreEvent>,
}

impl LunaCore {
    /// The screen analyser and planner.
    pub closed spec fn coordinator(self) -> AICoordinator {
        self.ai
    }

    /// The safety gate.
    pub closed spec fn safety(self) -> SafetySystem {
        self.safety
    }

    /// The counters.
    pub closed spec fn counters(self) -> (u64, u64, u64, u64) {
        stats_view(self.stats)
    }

    /// Frames captured so far.
    pub closed spec fn frames(self) -> u64 {
        self.capture.count()
    }

    /// How many subscribers were registered; they are numbered from 0.
    pub closed spec fn subscriber_total(self) -> u64 {
        self.subscribers
    }

    /// The events not yet handed to the subscribers, oldest first.
    pub closed spec fn pending(self) -> Seq<CoreEvent> {
        self.outbox@
    }

    /// The capture takes the whole synthetic screen.
    pub closed spec fn wf(self) -> bool {
        &&& self.capture.settings().capture_region is None
        &&& self.capture.settings().target_fps > 0
    }

    /// A core whose safety gate checks when `safety_enabled`, with a fresh
    /// analyser and zero counters; `None` exactly when the refused patterns
    /// do not compile.
    pub fn with_config(safety_enabled: bool) -> (r: Option<Self>)
        ensures
            r is Some <==> regex_set_compiles(blocked_pattern_texts()),
            r matches Some(c) ==> {
                &&& c.wf()
                &&& c.safety().is_enabled() == safety_enabled
                &&& c.safety().patterns() == blocked_pattern_texts()
                &&& c.coordinator().threshold() == 60
                &&& c.coordinator().max_kept() == 50
                &&& c.coordinator().counters() == (0u64, 0u64, 0u64)
                &&& c.counters() == (0u64, 0u64, 0u64, 0u64)
                &&& c.frames() == 0
                &&& c.subscriber_total() == 0
                &&& c.pending().len() == 0
            },
    {
        match SafetySystem::new(safety_enabled) {
            Some(safety) => Some(
                LunaCore {
                    ai: AICoordinator::new(),
                    capture: ScreenCapture::new(CaptureConfig::default()),
                    safety,
                    stats: ProcessingStats {
                        commands_processed: 0,
                        actions_executed: 0,
                        safety_blocks: 0,
                        total_processing_time_ms: 0,
                    },
                    subscribers: 0,
                    outbox: Vec::new(),
                },
            ),
            None => None,
        }
    }

    /// A core with the safety gate on.
    pub fn new() -> (r: Option<Self>)
        ensures
            r is Some <==> regex_set_compiles(blocked_pattern_texts()),
            r matches Some(c) ==> {
                &&& c.wf()
                &&& c.safety().is_enabled()
                &&& c.safety().patterns() == blocked_pattern_texts()
                &&& c.coordinator().threshold() == 60
                &&& c.coordinator().max_kept() == 50
                &&& c.coordinator().counters() == (0u64, 0u64, 0u64)
                &&& c.counters() == (0u64, 0u64, 0u64, 0u64)
                &&& c.frames() == 0
                &&& c.subscriber_total() == 0
                &&& c.pending().len() == 0
            },
    {
        Self::with_config(true)
    }
}


/// `plan` was planned for `command` on an analysis of the synthetic
/// screen, made by an analyser that was `before` and became `after`.
pub open spec fn planned_on_screen(
    before: AICoordinator,
    after: AICoordinator,
    command: Seq<char>,
    plan: CommandPlan,
) -> bool {
    &&& exists|img: Image| is_synthetic_screen(img) && analysis_of(before, after, &img, plan.analysis)
    &&& planned(command, plan.analysis.elements@, plan.actions@)
}

/// The events of `events` after position `n` report the analysis and the
/// planned actions of `plan`.
pub open spec fn planning_events(events: Seq<CoreEvent>, n: int, plan: CommandPlan) -> bool {
    &&& events[n + 1] == CoreEvent::AnalysisComplete {
        element_count: plan.analysis.elements@.len() as usize,
        confidence: plan.analysis.confidence,
    }
    &&& events[n + 2] == CoreEvent::ActionsPlanned { action_count: plan.actions@.len() as usize }
}

/// What handling `command` does to a core that was `before` and became
/// `after`, with the result `r`.  The command's arrival is announced to the
/// subscribers first.  A command the safety checks refuse counts a safety
/// block and touches nothing else.  Otherwise a frame is captured,
/// analysed and the actions are planned on it; the result is the plan when
/// every action passes the safety checks, else the plan with the first action that
/// fails, counted as a safety block; either way the analysis and the
/// planned actions are announced.
pub open spec fn command_outcome(
    before: LunaCore,
    after: LunaCore,
    command: Seq<char>,
    r: Result<CommandPlan, CoreError>,
) -> bool {
    &&& after.wf()
    &&& after.safety() == before.safety()
    &&& after.subscriber_total() == before.subscriber_total()
    &&& after.pending().len() > before.pending().len()
    &&& after.pending().take(before.pending().len() as int) == before.pending()
    &&& after.pending()[before.pending().len() as int] matches CoreEvent::CommandReceived { command: c } && c@ == command
    &&& if !before.safety().command_passes(command) {
        &&& after.pending().len() == before.pending().len() + 1
        &&& r matches Err(CoreError::UnsafeCommand(c)) && c@ == command
        &&& after.coordinator() == before.coordinator()
        &&& after.frames() == before.frames()
        &&& after.counters() == (before.counters().0, before.counters().1, bump(before.counters().2), before.counters().3)
    } else {
        &&& after.frames() == bump(before.frames())
        &&& after.pending().len() == before.pending().len() + 3
        &&& match r {
            Ok(plan) => planning_events(after.pending(), before.pending().len() as int, plan),
            Err(CoreError::UnsafeAction { plan, .. }) => planning_events(after.pending(), before.pending().len() as int, plan),
            Err(_) => false,
        }
        &&& match r {
            Ok(plan) => {
                &&& planned_on_screen(before.coordinator(), after.coordinator(), command, plan)
                &&& forall|j: int| 0 <= j < plan.actions@.len() ==> before.safety().action_passes(#[trigger] plan.actions@[j])
                &&& after.counters() == before.counters()
            },
            Err(CoreError::UnsafeAction { plan, index }) => {
                &&& planned_on_screen(before.coordinator(), after.coordinator(), command, plan)
                &&& index < plan.actions@.len()
                &&& !before.safety().action_passes(plan.actions@[index as int])
                &&& forall|j: int| 0 <= j < index ==> before.safety().action_passes(#[trigger] plan.actions@[j])
                &&& after.counters() == (
                    before.counters().0,
                    before.counters().1,
                    bump(before.counters().2),
                    before.counters().3,
                )
            },
            Err(_) => false,
        }
    }
}

impl LunaCore {
    /// Handles `command` up to the point where its actions would run, with
    /// the frame stamped `now_ms`: see `command_outcome`.  The caller runs
    /// the actions of a plan and then calls `record_success`.
    pub fn process_command_at(&mut self, command: &str, now_ms: u64) -> (r: Result<CommandPlan, CoreError>)
        requires
            old(self).wf(),
        ensures
            command_outcome(*old(self), *final(self), command@, r),
    {
        let ghost p0 = self.outbox@;
        self.outbox.push(CoreEvent::CommandReceived { command: String::from_str(command) });
        assert(self.outbox@.take(p0.len() as int) =~= p0);
        if !self.safety.is_command_safe(command) {
            self.stats.safety_blocks = self.stats.safety_blocks.saturating_add(1);
            return Err(CoreError::UnsafeCommand(String::from_str(command)));
        }
        let ghost p1 = self.outbox@;
        let ghost ai0 = self.ai;
        let screen = match self.capture.capture_screen_at(now_ms) {
            Ok(img) => img,
            Err(e) => {
                return Err(CoreError::Capture(e));
            },
        };
        assert(is_synthetic_screen(screen));
        assert(1920usize * 1080usize <= i32::MAX);
        let analysis = self.ai.analyze_screen(&screen);
        assert(analysis_of(ai0, self.ai, &screen, analysis));
        proof {
            assert forall|i: int| 0 <= i < analysis.elements@.len() implies crate::ai::center_fits(
                (#[trigger] analysis.elements@[i]).bounds,
            ) by {
                lemma_placed_center_fits(analysis.elements@[i].bounds);
            }
        }
        let actions = self.ai.plan_actions(command, &analysis);
        let check = self.safety.first_unsafe_action(&actions);
        self.outbox.push(
            CoreEvent::AnalysisComplete { element_count: analysis.elements.len(), confidence: analysis.confidence },
        );
        self.outbox.push(CoreEvent::ActionsPlanned { action_count: actions.len() });
        assert(self.outbox@.take(p0.len() as int) =~= p0);
        assert(self.outbox@[p0.len() as int] == p1[p0.len() as int]);
        let plan = CommandPlan { analysis, actions };
        assert(planned_on_screen(ai0, self.ai, command@, plan));
        match check {
            Some(index) => {
                self.stats.safety_blocks = self.stats.safety_blocks.saturating_add(1);
                Err(CoreError::UnsafeAction { plan, index })
            },
            None => Ok(plan),
        }
    }

    /// Handles `command` with the frame stamped by the system clock.
    pub fn process_command(&mut self, command: &str) -> (r: Result<CommandPlan, CoreError>)
        requires
            old(self).wf(),
        ensures
            command_outcome(*old(self), *final(self), command@, r),
    {
        let now = crate::util::clock_millis();
        self.process_command_at(command, now)
    }

    /// Counts a command whose `actions_executed` actions all ran, taking
    /// `processing_time_ms` in all.
    pub fn record_success(&mut self, actions_executed: usize, processing_time_ms: u64)
        ensures
            final(self).wf() == old(self).wf(),
            final(self).safety() == old(self).safety(),
            final(self).coordinator() == old(self).coordinator(),
            final(self).frames() == old(self).frames(),
            final(self).subscriber_total() == old(self).subscriber_total(),
            final(self).pending() == old(self).pending(),
            final(self).counters() == (
                bump(old(self).counters().0),
                sum_capped(old(self).counters().1, actions_executed as int),
                old(self).counters().2,
                sum_capped(old(self).counters().3, processing_time_ms as int),
            ),
    {
        self.stats.commands_processed = self.stats.commands_processed.saturating_add(1);
        self.stats.actions_executed = self.stats.actions_executed.saturating_add(actions_executed as u64);
        self.stats.total_processing_time_ms = self.stats.total_processing_time_ms.saturating_add(processing_time_ms);
    }
}

impl LunaCore {
    /// Captures a frame stamped `now_ms` and analyses it, without planning
    /// anything.
    pub fn analyze_current_screen_at(&mut self, now_ms: u64) -> (r: Result<ScreenAnalysis, CaptureError>)
        requires
            old(self).wf(),
        ensures
            final(self).wf(),
            final(self).safety() == old(self).safety(),
            final(self).counters() == old(self).counters(),
            final(self).frames() == bump(old(self).frames()),
            final(self).subscriber_total() == old(self).subscriber_total(),
            final(self).pending() == old(self).pending(),
            r matches Ok(a) && exists|img: Image|
                is_synthetic_screen(img) && analysis_of(old(self).coordinator(), final(self).coordinator(), &img, a),
    {
        let ghost ai0 = self.ai;
        let screen = match self.capture.capture_screen_at(now_ms) {
            Ok(img) => img,
            Err(e) => {
                return Err(e);
            },
        };
        assert(is_synthetic_screen(screen));
        assert(1920usize * 1080usize <= i32::MAX);
        let analysis = self.ai.analyze_screen(&screen);
        assert(analysis_of(ai0, self.ai, &screen, analysis));
        Ok(analysis)
    }

    /// Captures a frame stamped by the system clock and analyses it.
    pub fn analyze_current_screen(&mut self) -> (r: Result<ScreenAnalysis, CaptureError>)
        requires
            old(self).wf(),
        ensures
            final(self).wf(),
            final(self).safety() == old(self).safety(),
            final(self).counters() == old(self).counters(),
            final(self).frames() == bump(old(self).frames()),
            final(self).subscriber_total() == old(self).subscriber_total(),
            final(self).pending() == old(self).pending(),
            r matches Ok(a) && exists|img: Image|
                is_synthetic_screen(img) && analysis_of(old(self).coordinator(), final(self).coordinator(), &img, a),
    {
        let now = crate::util::clock_millis();
        self.analyze_current_screen_at(now)
    }

    /// The counters.
    pub fn get_stats(&self) -> (s: ProcessingStats)
        ensures
            stats_view(s) == self.counters(),
    {
        ProcessingStats {
            commands_processed: self.stats.commands_processed,
            actions_executed: self.stats.actions_executed,
            safety_blocks: self.stats.safety_blocks,
            total_processing_time_ms: self.stats.total_processing_time_ms,
        }
    }

    /// Whether commands can be handled: always.
    pub fn is_ready(&self) -> (b: bool)
        ensures
            b,
    {
        true
    }

    /// Replaces the safety gate by a fresh one that checks when
    /// `safety_enabled`; `false`, with nothing changed, exactly when the
    /// refused patterns do not compile.
    pub fn update_config(&mut self, safety_enabled: bool) -> (ok: bool)
        ensures
            ok <==> regex_set_compiles(blocked_pattern_texts()),
            final(self).wf() == old(self).wf(),
            final(self).coordinator() == old(self).coordinator(),
            final(self).counters() == old(self).counters(),
            final(self).frames() == old(self).frames(),
            final(self).subscriber_total() == old(self).subscriber_total(),
            final(self).pending() == old(self).pending(),
            ok ==> final(self).safety().is_enabled() == safety_enabled && final(self).safety().patterns()
                == blocked_pattern_texts(),
            !ok ==> final(self).safety() == old(self).safety(),
    {
        match SafetySystem::new(safety_enabled) {
            Some(safety) => {
                self.safety = safety;
                true
            },
            None => false,
        }
    }

    /// `action` when it passes the safety checks, else the refusal that holds it.
    fn gate_action(&self, action: LunaAction) -> (r: Result<LunaAction, CoreError>)
        ensures
            self.safety().action_passes(action) ==> r == Ok::<LunaAction, CoreError>(action),
            !self.safety().action_passes(action) ==> r == Err::<LunaAction, CoreError>(CoreError::ActionRefused(action)),
    {
        if self.safety.is_action_safe(&action) {
            Ok(action)
        } else {
            Err(CoreError::ActionRefused(action))
        }
    }

    /// A click at `(x, y)`, to be carried out, if it passes the safety checks.
    pub fn click(&self, x: i32, y: i32) -> (r: Result<LunaAction, CoreError>)
        ensures
            self.safety().action_passes(LunaAction::Click { x, y }) ==> r == Ok::<LunaAction, CoreError>(
                LunaAction::Click { x, y },
            ),
            !self.safety().action_passes(LunaAction::Click { x, y }) ==> r == Err::<LunaAction, CoreError>(
                CoreError::ActionRefused(LunaAction::Click { x, y }),
            ),
    {
        self.gate_action(LunaAction::Click { x, y })
    }

    /// Typing `text`, to be carried out, if it passes the safety checks.
    pub fn type_text(&self, text: &str) -> (r: Result<LunaAction, CoreError>)
        ensures
            match r {
                Ok(LunaAction::Type { text: t }) => t@ == text@ && self.safety().action_passes(LunaAction::Type { text: t }),
                Err(CoreError::ActionRefused(LunaAction::Type { text: t })) => t@ == text@ && !self.safety().action_passes(
                    LunaAction::Type { text: t },
                ),
                _ => false,
            },
    {
        self.gate_action(LunaAction::Type { text: String::from_str(text) })
    }

    /// Pressing the keys `keys` together, to be carried out, if it passes
    /// the safety checks.
    pub fn send_keys(&self, keys: Vec<String>) -> (r: Result<LunaAction, CoreError>)
        ensures
            match r {
                Ok(LunaAction::KeyCombo { keys: k }) => k@ == keys@ && self.safety().action_passes(
                    LunaAction::KeyCombo { keys: k },
                ),
                Err(CoreError::ActionRefused(LunaAction::KeyCombo { keys: k })) => k@ == keys@
                    && !self.safety().action_passes(LunaAction::KeyCombo { keys: k }),
                _ => false,
            },
    {
        self.gate_action(LunaAction::KeyCombo { keys })
    }

    /// Scrolling `amount` toward `direction`, to be carried out, if it
    /// passes the safety checks.
    pub fn scroll(&self, direction: &str, amount: i32) -> (r: Result<LunaAction, CoreError>)
        ensures
            match r {
                Ok(LunaAction::Scroll { direction: d, amount: a }) => d@ == direction@ && a == amount
                    && self.safety().action_passes(LunaAction::Scroll { direction: d, amount: a }),
                Err(CoreError::ActionRefused(LunaAction::Scroll { direction: d, amount: a })) => d@ == direction@ && a
                    == amount && !self.safety().action_passes(LunaAction::Scroll { direction: d, amount: a }),
                _ => false,
            },
    {
        self.gate_action(LunaAction::Scroll { direction: String::from_str(direction), amount })
    }
}

/// The deliveries of `events` events to `subscribers` subscribers: each
/// event, oldest first, to each subscriber in turn, as `(subscriber,
/// event)` pairs.
pub open spec fn all_deliveries(deliveries: Seq<(u64, usize)>, events: int, subscribers: int) -> bool {
    &&& deliveries.len() == events * subscribers
    &&& forall|e: int, k: int|
        0 <= e < events && 0 <= k < subscribers ==> #[trigger] deliveries[e * subscribers + k] == (k as u64, e as usize)
}

impl LunaCore {
    /// How many subscribers were registered.
    pub fn subscriber_count(&self) -> (n: u64)
        ensures
            n == self.subscriber_total(),
    {
        self.subscribers
    }

    /// Registers a subscriber; it gets the next number, and every event
    /// from now on.
    pub fn subscribe_to_events(&mut self) -> (id: u64)
        requires
            old(self).subscriber_total() < u64::MAX,
        ensures
            id == old(self).subscriber_total(),
            final(self).subscriber_total() == old(self).subscriber_total() + 1,
            final(self).pending() == old(self).pending(),
            final(self).wf() == old(self).wf(),
            final(self).safety() == old(self).safety(),
            final(self).coordinator() == old(self).coordinator(),
            final(self).counters() == old(self).counters(),
            final(self).frames() == old(self).frames(),
    {
        let id = self.subscribers;
        self.subscribers = self.subscribers + 1;
        id
    }

    /// Announces that the planned action at `index` ran (`success`) or
    /// failed.
    pub fn report_action(&mut self, index: usize, success: bool)
        ensures
            final(self).pending() == old(self).pending().push(CoreEvent::ActionExecuted { index, success }),
            final(self).subscriber_total() == old(self).subscriber_total(),
            final(self).wf() == old(self).wf(),
            final(self).safety() == old(self).safety(),
            final(self).coordinator() == old(self).coordinator(),
            final(self).counters() == old(self).counters(),
            final(self).frames() == old(self).frames(),
    {
        self.outbox.push(CoreEvent::ActionExecuted { index, success });
    }

    /// Hands out the pending events: gives them, oldest first, with the
    /// deliveries to make (each event to each subscriber once, see
    /// `all_deliveries`), and forgets them.
    pub fn take_deliveries(&mut self) -> (r: (Vec<CoreEvent>, Vec<(u64, usize)>))
        ensures
            r.0@ == old(self).pending(),
            all_deliveries(r.1@, old(self).pending().len() as int, old(self).subscriber_total() as int),
            final(self).pending() == Seq::<CoreEvent>::empty(),
            final(self).subscriber_total() == old(self).subscriber_total(),
            final(self).wf() == old(self).wf(),
            final(self).safety() == old(self).safety(),
            final(self).coordinator() == old(self).coordinator(),
            final(self).counters() == old(self).counters(),
            final(self).frames() == old(self).frames(),
    {
        let mut events: Vec<CoreEvent> = Vec::new();
        std::mem::swap(&mut events, &mut self.outbox);
        let n = events.len();
        let m = self.subscribers;
        let mut deliveries: Vec<(u64, usize)> = Vec::new();
        let mut e: usize = 0;
        while e < n
            invariant
                e <= n,
                n == events@.len(),
                deliveries@.len() == e * m,
                forall|a: int, k: int| 0 <= a < e && 0 <= k < m ==> #[trigger] deliveries@[a * m + k] == (k as u64, a as usize),
            decreases n - e,
        {
            let mut k: u64 = 0;
            while k < m
                invariant
                    k <= m,
                    e < n,
                    n == events@.len(),
                    deliveries@.len() == e * m + k,
                    forall|a: int, q: int| 0 <= a < e && 0 <= q < m ==> #[trigger] deliveries@[a * m + q] == (q as u64, a as usize),
                    forall|q: int| 0 <= q < k ==> #[trigger] deliveries@[e * m + q] == (q as u64, e as usize),
                decreases m - k,
            {
                let ghost before = deliveries@;
                deliveries.push((k, e));
                assert forall|a: int, q: int| 0 <= a < e && 0 <= q < m implies #[trigger] deliveries@[a * m + q] == (
                q as u64, a as usize) by {
                    assert(a * m + q < e * m) by (nonlinear_arith)
                        requires
                            0 <= a < e,
                            0 <= q < m,
                    ;
                    assert(deliveries@[a * m + q] == before[a * m + q]);
                }
                assert forall|q: int| 0 <= q < k + 1 implies #[trigger] deliveries@[e * m + q] == (q as u64, e as usize) by {
                    if q < k {
                        assert(deliveries@[e * m + q] == before[e * m + q]);
                    }
                }
                k = k + 1;
            }
            assert((e + 1) * m == e * m + m) by (nonlinear_arith);
            assert forall|a: int, q: int| 0 <= a < e + 1 && 0 <= q < m implies #[trigger] deliveries@[a * m + q] == (
            q as u64, a as usize) by {
                if a == e {
                    assert(deliveries@[e * m + q] == (q as u64, e as usize));
                }
            }
            e = e + 1;
        }
        (events, deliveries)
    }
}

/// In the deliveries `all_deliveries` describes, each subscriber gets each
/// event exactly once: the pair `(k, e)` stands at one place only.
pub proof fn lemma_delivered_once(d: Seq<(u64, usize)>, events: int, subscribers: int, e: int, k: int)
    requires
        all_deliveries(d, events, subscribers),
        0 <= e < events <= usize::MAX,
        0 <= k < subscribers <= u64::MAX,
    ensures
        d[e * subscribers + k] == (k as u64, e as usize),
        forall|i: int| 0 <= i < d.len() && #[trigger] d[i] == (k as u64, e as usize) ==> i == e * subscribers + k,
{
    assert forall|i: int| 0 <= i < d.len() && #[trigger] d[i] == (k as u64, e as usize) implies i == e * subscribers + k by {
        let a = i / subscribers;
        let q = i % subscribers;
        vstd::arithmetic::div_mod::lemma_fundamental_div_mod(i, subscribers);
        vstd::arithmetic::div_mod::lemma_mod_bound(i, subscribers);
        assert(subscribers * a == a * subscribers) by (nonlinear_arith);
        assert(0 <= a < events) by (nonlinear_arith)
            requires
                i == a * subscribers + q,
                0 <= q < subscribers,
                0 <= i < events * subscribers,
        ;
        assert(d[a * subscribers + q] == (q as u64, a as usize));
    }
}

} // verus!
