//! Per-component operation statistics, alert bookkeeping and operation
//! timers.

use vstd::prelude::*;
use vstd::string::StringExecFns;
use crate::kv::{as_map, find_key, has_key, keys_distinct, lemma_as_map_push, lemma_as_map_update};
use crate::memory::MemoryManager;

verus! {

/// What an alert is about.
#[derive(Debug, Clone, Copy, PartialEq, Eq, Structural)]
pub enum AlertType {
    HighCpuUsage,
    HighMemoryUsage,
    SlowInference,
    HighErrorRate,
    SystemOverload,
    ModelTimeout,
    MemoryLeak,
    DiskSpaceLow,
}

/// How serious an alert is, least serious first.
#[derive(Debug, Clone, Copy, PartialEq, Eq, PartialOrd, Ord)]
pub enum AlertSeverity {
    Info,
    Warning,
    Error,
    Critical,
}

/// A raised alert.
#[derive(Debug, Clone)]
pub struct AlertRecord {
    pub id: String,
    pub alert_type: AlertType,
    pub severity: AlertSeverity,
    pub message: String,
    pub component: Option<String>,
    pub timestamp: u64,
    pub acknowledged: bool,
}

/// Operation statistics of one component.
#[derive(Debug, Clone, Copy, PartialEq, Eq, Structural)]
pub struct ComponentStats {
    pub operations_count: u64,
    pub total_execution_time_ms: u64,
    pub min_execution_time_ms: u64,
    pub max_execution_time_ms: u64,
    pub error_count: u64,
    pub memory_usage_bytes: u64,
    pub last_operation: Option<u64>,
}

/// The statistics a component starts from.
pub open spec fn fresh_stats() -> ComponentStats {
    ComponentStats {
        operations_count: 0,
        total_execution_time_ms: 0,
        min_execution_time_ms: u64::MAX,
        max_execution_time_ms: 0,
        error_count: 0,
        memory_usage_bytes: 0,
        last_operation: None,
    }
}

/// `a + b`, stopping at `u64::MAX`.
pub open spec fn sat_add(a: u64, b: u64) -> u64 {
    if a + b > u64::MAX {
        u64::MAX
    } else {
        (a + b) as u64
    }
}

/// The statistics after one more operation that took `ms`, succeeded or
/// not, held `memory` bytes and ended at `now`.
pub open spec fn after_operation(s: ComponentStats, ms: u64, success: bool, memory: u64, now: u64) -> ComponentStats {
    ComponentStats {
        operations_count: sat_add(s.operations_count, 1),
        total_execution_time_ms: sat_add(s.total_execution_time_ms, ms),
        min_execution_time_ms: if ms < s.min_execution_time_ms {
            ms
        } else {
            s.min_execution_time_ms
        },
        max_execution_time_ms: if ms > s.max_execution_time_ms {
            ms
        } else {
            s.max_execution_time_ms
        },
        error_count: if success {
            s.error_count
        } else {
            sat_add(s.error_count, 1)
        },
        memory_usage_bytes: memory,
        last_operation: Some(now),
    }
}

/// One more operation of `ms` keeps the extremes: the longest time is at
/// least `ms` and at least the longest before, and is one of the two; the
/// shortest is at most both and one of the two.  The count grows by one
/// (up to the largest `u64`), the total by `ms`, and the failures by one
/// exactly when the operation failed.
pub proof fn lemma_operation_extremes(s: ComponentStats, ms: u64, success: bool, memory: u64, now: u64)
    ensures
        ({
            let t = after_operation(s, ms, success, memory, now);
            &&& t.max_execution_time_ms >= ms
            &&& t.max_execution_time_ms >= s.max_execution_time_ms
            &&& (t.max_execution_time_ms == ms || t.max_execution_time_ms == s.max_execution_time_ms)
            &&& t.min_execution_time_ms <= ms
            &&& t.min_execution_time_ms <= s.min_execution_time_ms
            &&& (t.min_execution_time_ms == ms || t.min_execution_time_ms == s.min_execution_time_ms)
            &&& (s.operations_count < u64::MAX ==> t.operations_count == s.operations_count + 1)
            &&& (s.total_execution_time_ms + ms <= u64::MAX ==> t.total_execution_time_ms == s.total_execution_time_ms + ms)
            &&& (success ==> t.error_count == s.error_count)
            &&& (!success && s.error_count < u64::MAX ==> t.error_count == s.error_count + 1)
            &&& t.memory_usage_bytes == memory
            &&& t.last_operation == Some(now)
        }),
{
}

/// Two operations recorded one after the other leave the longest of their
/// times (and of the earlier longest) as the longest, and the shortest as
/// the shortest, in either order.
pub proof fn lemma_extremes_of_two(s: ComponentStats, a: u64, b: u64, ok_a: bool, ok_b: bool, m: u64, t1: u64, t2: u64)
    ensures
        ({
            let two = after_operation(after_operation(s, a, ok_a, m, t1), b, ok_b, m, t2);
            let big = if a > b { a } else { b };
            let small = if a < b { a } else { b };
            &&& two.max_execution_time_ms == (if big > s.max_execution_time_ms { big } else { s.max_execution_time_ms })
            &&& two.min_execution_time_ms == (if small < s.min_execution_time_ms { small } else { s.min_execution_time_ms })
        }),
{
}

impl ComponentStats {
    /// More than one operation in ten failed, over more than ten
    /// operations.
    pub open spec fn spec_high_error_rate(self) -> bool {
        self.operations_count > 10 && 10 * self.error_count > self.operations_count
    }

    /// Operations took more than five seconds on average.
    pub open spec fn spec_slow(self) -> bool {
        self.operations_count > 0 && self.total_execution_time_ms > 5000 * self.operations_count
    }

    /// More than one operation in ten failed, over more than ten
    /// operations.
    pub fn high_error_rate(&self) -> (b: bool)
        ensures
            b == self.spec_high_error_rate(),
    {
        self.operations_count > 10 && (self.error_count as u128) * 10 > self.operations_count as u128
    }

    /// Operations took more than five seconds on average.
    pub fn slow(&self) -> (b: bool)
        ensures
            b == self.spec_slow(),
    {
        self.operations_count > 0 && (self.total_execution_time_ms as u128) > 5000 * (
        self.operations_count as u128)
    }
}

/// `10 * num / den` rounded half up: the value with one decimal, in tenths.
pub open spec fn tenths(num: int, den: int) -> int {
    (20 * num + den) / (2 * den)
}

/// The tenths `t` written with one decimal.
pub open spec fn one_decimal(t: nat) -> Seq<char> {
    crate::text::decimal(t / 10) + "."@ + seq![crate::text::digit_char(t % 10)]
}

/// The value of an alert: identifier, type, severity, message, component,
/// time and whether it was acknowledged.
pub type AlertView = (Seq<char>, AlertType, AlertSeverity, Seq<char>, Option<Seq<char>>, u64, bool);

/// The value of the alert `a`.
pub open spec fn alert_view(a: AlertRecord) -> AlertView {
    (
        a.id@,
        a.alert_type,
        a.severity,
        a.message@,
        match a.component {
            Some(c) => Some(c@),
            None => None,
        },
        a.timestamp,
        a.acknowledged,
    )
}

/// The values of the alerts `s`.
pub open spec fn alert_views(s: Seq<AlertRecord>) -> Seq<AlertView> {
    s.map_values(|a: AlertRecord| alert_view(a))
}

/// The alerts raised at `now` for `component` with the statistics `st`:
/// a high-error-rate error when more than one operation in ten failed over
/// more than ten operations, then a slow-operations warning when they took
/// more than five seconds on average.
pub open spec fn component_alerts(component: Seq<char>, st: ComponentStats, now: u64) -> Seq<AlertView> {
    let id = "alert_"@ + crate::text::decimal(now as nat);
    let n = st.operations_count as int;
    (if st.spec_high_error_rate() {
        seq![
            (
                id,
                AlertType::HighErrorRate,
                AlertSeverity::Error,
                "High error rate in "@ + component + ": "@ + one_decimal(tenths(100 * st.error_count, n) as nat) + "%"@,
                Some(component),
                now,
                false,
            ),
        ]
    } else {
        Seq::empty()
    }) + (if st.spec_slow() {
        seq![
            (
                id,
                AlertType::SystemOverload,
                AlertSeverity::Warning,
                "Slow operations in "@ + component + ": "@ + one_decimal(tenths(st.total_execution_time_ms as int, n) as nat)
                    + "ms average"@,
                Some(component),
                now,
                false,
            ),
        ]
    } else {
        Seq::empty()
    })
}

/// A value of at most `k` is written with at most `10 * k` tenths.
proof fn lemma_tenths_le(num: int, den: int, k: int)
    requires
        den >= 1,
        0 <= num <= k * den,
    ensures
        0 <= tenths(num, den) <= 10 * k,
{
    let t = tenths(num, den);
    assert(0 <= t) by (nonlinear_arith)
        requires
            den >= 1,
            num >= 0,
            t == (20 * num + den) / (2 * den),
    ;
    assert(t <= 10 * k) by (nonlinear_arith)
        requires
            den >= 1,
            num <= k * den,
            num >= 0,
            t == (20 * num + den) / (2 * den),
    ;
}

/// Appends `num * 10 / den`, rounded half up, with one decimal.
fn append_one_decimal(s: &mut String, num: u128, den: u64)
    requires
        den >= 1,
        num <= 100 * (u64::MAX as int),
        tenths(num as int, den as int) / 10 <= u64::MAX,
    ensures
        final(s)@ == old(s)@ + one_decimal(tenths(num as int, den as int) as nat),
{
    let d = den as u128;
    let t = (20 * num + d) / (2 * d);
    let ghost tt = tenths(num as int, den as int);
    assert(t as int == tt);
    assert((t / 10) as int == tt / 10);
    assert((t % 10) as int == tt % 10);
    crate::text::append_decimal(s, (t / 10) as u64);
    crate::text::push_char(s, '.');
    crate::text::push_char(s, crate::text::digit((t % 10) as u64));
    proof {
        reveal_strlit(".");
    }
    assert(final(s)@ =~= old(s)@ + one_decimal(tenths(num as int, den as int) as nat));
}

/// The statistics of every component at one moment (seconds since the
/// epoch).
#[derive(Debug, Clone)]
pub struct MetricsSnapshot {
    pub timestamp: u64,
    pub components: Vec<(String, ComponentStats)>,
}

/// The statistics of `snap` as `(component, statistics)` pairs.
pub open spec fn snapshot_entries(snap: MetricsSnapshot) -> Seq<(Seq<char>, ComponentStats)> {
    snap.components@.map_values(|e: (String, ComponentStats)| (e.0@, e.1))
}

/// A snapshot taken after an operation of `component` was recorded shows
/// that component's statistics updated by the operation: `before` is the
/// collector before `record_component_operation_at` (recording),
/// `after` the collector after it, `snap` a snapshot of `after`.
pub proof fn lemma_snapshot_after_record(
    before: MetricsCollector,
    after: MetricsCollector,
    snap: MetricsSnapshot,
    component: Seq<char>,
    ms: u64,
    success: bool,
    memory_used: u64,
    now: u64,
)
    requires
        after.components() == before.components().insert(
            component,
            after_operation(
                if before.components().contains_key(component) {
                    before.components()[component]
                } else {
                    fresh_stats()
                },
                ms,
                success,
                memory_used,
                now,
            ),
        ),
        as_map(snapshot_entries(snap)) == after.components(),
    ensures
        as_map(snapshot_entries(snap)).contains_key(component),
        as_map(snapshot_entries(snap))[component] == after_operation(
            if before.components().contains_key(component) {
                before.components()[component]
            } else {
                fresh_stats()
            },
            ms,
            success,
            memory_used,
            now,
        ),
{
}

/// Collects component statistics and alerts.
pub struct MetricsCollector {
    component_metrics: Vec<(String, ComponentStats)>,
    alerts: Vec<AlertRecord>,
    collection_enabled: bool,
}

impl MetricsCollector {
    /// The statistics per component, in storage order.
    pub closed spec fn entries(self) -> Seq<(Seq<char>, ComponentStats)> {
        self.component_metrics@.map_values(|e: (String, ComponentStats)| (e.0@, e.1))
    }

    /// No component is stored twice, and no component has more failed
    /// operations than operations.
    pub closed spec fn wf(self) -> bool {
        &&& keys_distinct(self.entries())
        &&& forall|i: int| 0 <= i < self.entries().len() ==> (#[trigger] self.entries()[i]).1.error_count <= self.entries()[i].1.operations_count
    }

    /// The statistics per component.
    pub closed spec fn components(self) -> Map<Seq<char>, ComponentStats> {
        as_map(self.entries())
    }

    /// The alerts raised, oldest first.
    pub closed spec fn alert_list(self) -> Seq<AlertRecord> {
        self.alerts@
    }

    /// Whether operations are being recorded.
    pub closed spec fn enabled(self) -> bool {
        self.collection_enabled
    }

    /// A collector with nothing recorded, recording.
    pub fn new() -> (m: Self)
        ensures
            m.wf(),
            m.components() == Map::<Seq<char>, ComponentStats>::empty(),
            m.alert_list().len() == 0,
            m.enabled(),
    {
        let m = MetricsCollector { component_metrics: Vec::new(), alerts: Vec::new(), collection_enabled: true };
        assert(m.entries() =~= Seq::<(Seq<char>, ComponentStats)>::empty());
        assert(m.components() =~= Map::<Seq<char>, ComponentStats>::empty());
        m
    }

    /// Starts recording.
    pub fn start_collection(&mut self) -> (r: Result<(), crate::error::LunaError>)
        ensures
            r is Ok,
            final(self).enabled(),
            final(self).entries() == old(self).entries(),
            final(self).alert_list() == old(self).alert_list(),
    {
        self.collection_enabled = true;
        Ok(())
    }

    /// Stops recording.
    pub fn stop_collection(&mut self)
        ensures
            !final(self).enabled(),
            final(self).entries() == old(self).entries(),
            final(self).alert_list() == old(self).alert_list(),
    {
        self.collection_enabled = false;
    }

    /// Records an operation of `component` that took `ms`, ending at `now`;
    /// nothing while recording is stopped.
    pub fn record_component_operation_at(
        &mut self,
        component: &str,
        ms: u64,
        success: bool,
        memory_used: u64,
        now: u64,
    ) -> (r: Result<(), crate::error::LunaError>)
        requires
            old(self).wf(),
        ensures
            r is Ok,
            final(self).wf(),
            final(self).enabled() == old(self).enabled(),
            !old(self).enabled() ==> final(self).alert_list() == old(self).alert_list(),
            old(self).enabled() ==> alert_views(final(self).alert_list()) == alert_views(old(self).alert_list())
                + component_alerts(component@, final(self).components()[component@], now),
            !old(self).enabled() ==> final(self).components() == old(self).components(),
            old(self).enabled() ==> final(self).components() == old(self).components().insert(
                component@,
                after_operation(
                    if old(self).components().contains_key(component@) {
                        old(self).components()[component@]
                    } else {
                        fresh_stats()
                    },
                    ms,
                    success,
                    memory_used,
                    now,
                ),
            ),
    {
        if !self.collection_enabled {
            return Ok(());
        }
        let ghost e = self.entries();
        let (idx, s) = match find_key(&self.component_metrics, component) {
            Some(i) => {
                proof {
                    crate::kv::lemma_as_map_at(e, i as int);
                }
                (Some(i), self.component_metrics[i].1)
            },
            None => {
                proof {
                    if has_key(e, component@) {
                        let j = crate::kv::key_index(e, component@);
                        assert(self.component_metrics@[j].0@ == component@);
                    }
                }
                (None, ComponentStats {
                    operations_count: 0,
                    total_execution_time_ms: 0,
                    min_execution_time_ms: u64::MAX,
                    max_execution_time_ms: 0,
                    error_count: 0,
                    memory_usage_bytes: 0,
                    last_operation: None,
                })
            },
        };
        let updated = ComponentStats {
            operations_count: s.operations_count.saturating_add(1),
            total_execution_time_ms: s.total_execution_time_ms.saturating_add(ms),
            min_execution_time_ms: if ms < s.min_execution_time_ms {
                ms
            } else {
                s.min_execution_time_ms
            },
            max_execution_time_ms: if ms > s.max_execution_time_ms {
                ms
            } else {
                s.max_execution_time_ms
            },
            error_count: if success {
                s.error_count
            } else {
                s.error_count.saturating_add(1)
            },
            memory_usage_bytes: memory_used,
            last_operation: Some(now),
        };
        match idx {
            Some(i) => {
                let k = self.component_metrics[i].0.clone();
                self.component_metrics.set(i, (k, updated));
                proof {
                    assert(self.entries() =~= e.update(i as int, (e[i as int].0, updated)));
                    lemma_as_map_update(e, i as int, updated);
                }
            },
            None => {
                self.component_metrics.push((String::from_str(component), updated));
                proof {
                    assert(self.entries() =~= e.push((component@, updated)));
                    lemma_as_map_push(e, component@, updated);
                }
            },
        }
        self.check_component_alerts(component, &updated, now);
        Ok(())
    }

    /// Raises the alerts `component_alerts` gives for `component` with the
    /// statistics `st` at `now`.
    fn check_component_alerts(&mut self, component: &str, st: &ComponentStats, now: u64)
        requires
            st.error_count <= st.operations_count,
        ensures
            alert_views(final(self).alert_list()) == alert_views(old(self).alert_list()) + component_alerts(component@, *st, now),
            final(self).entries() == old(self).entries(),
            final(self).enabled() == old(self).enabled(),
    {
        let ghost a0 = self.alerts@;
        let n = st.operations_count;
        if st.high_error_rate() {
            let mut id = String::from_str("alert_");
            crate::text::append_decimal(&mut id, now);
            let mut message = String::from_str("High error rate in ");
            message.append(component);
            message.append(": ");
            proof {
                lemma_tenths_le(100 * st.error_count, n as int, 100);
            }
            append_one_decimal(&mut message, 100 * (st.error_count as u128), n);
            message.append("%");
            self.alerts.push(
                AlertRecord {
                    id,
                    alert_type: AlertType::HighErrorRate,
                    severity: AlertSeverity::Error,
                    message,
                    component: Some(String::from_str(component)),
                    timestamp: now,
                    acknowledged: false,
                },
            );
        }
        let ghost a1 = self.alerts@;
        if st.slow() {
            let mut id = String::from_str("alert_");
            crate::text::append_decimal(&mut id, now);
            let mut message = String::from_str("Slow operations in ");
            message.append(component);
            message.append(": ");
            proof {
                assert(st.total_execution_time_ms <= u64::MAX * n) by (nonlinear_arith)
                    requires
                        n >= 1,
                        st.total_execution_time_ms <= u64::MAX,
                ;
                lemma_tenths_le(st.total_execution_time_ms as int, n as int, u64::MAX as int);
            }
            append_one_decimal(&mut message, st.total_execution_time_ms as u128, n);
            message.append("ms average");
            self.alerts.push(
                AlertRecord {
                    id,
                    alert_type: AlertType::SystemOverload,
                    severity: AlertSeverity::Warning,
                    message,
                    component: Some(String::from_str(component)),
                    timestamp: now,
                    acknowledged: false,
                },
            );
        }
        assert(alert_views(self.alerts@) =~= alert_views(a0) + component_alerts(component@, *st, now));
    }

    /// Records an operation ending now, by the system clock.
    pub fn record_component_operation(&mut self, component: &str, ms: u64, success: bool, memory_used: u64) -> (r: Result<(), crate::error::LunaError>)
        requires
            old(self).wf(),
        ensures
            r is Ok,
            final(self).wf(),
            final(self).enabled() == old(self).enabled(),
            !old(self).enabled() ==> final(self).components() == old(self).components(),
            old(self).enabled() ==> final(self).components().contains_key(component@),
            !old(self).enabled() ==> final(self).alert_list() == old(self).alert_list(),
            exists|now: u64|
                #![trigger after_operation(old(self).components()[component@], ms, success, memory_used, now)]
                #![trigger after_operation(fresh_stats(), ms, success, memory_used, now)]
                old(self).enabled() ==> final(self).components() == old(self).components().insert(
                    component@,
                    after_operation(
                        if old(self).components().contains_key(component@) {
                            old(self).components()[component@]
                        } else {
                            fresh_stats()
                        },
                        ms,
                        success,
                        memory_used,
                        now,
                    ),
                ) && alert_views(final(self).alert_list()) == alert_views(old(self).alert_list()) + component_alerts(
                    component@,
                    final(self).components()[component@],
                    now,
                ),
    {
        let now = crate::util::clock_millis() / 1000;
        let r = self.record_component_operation_at(component, ms, success, memory_used, now);
        assert(old(self).enabled() ==> self.components() == old(self).components().insert(
            component@,
            after_operation(
                if old(self).components().contains_key(component@) {
                    old(self).components()[component@]
                } else {
                    fresh_stats()
                },
                ms,
                success,
                memory_used,
                now,
            ),
        ));
        r
    }

    /// The statistics of `component`.
    pub fn component_stats(&self, component: &str) -> (r: Option<ComponentStats>)
        requires
            self.wf(),
        ensures
            match r {
                Some(s) => self.components().contains_key(component@) && self.components()[component@] == s,
                None => !self.components().contains_key(component@),
            },
    {
        match find_key(&self.component_metrics, component) {
            Some(i) => {
                proof {
                    crate::kv::lemma_as_map_at(self.entries(), i as int);
                }
                Some(self.component_metrics[i].1)
            },
            None => {
                proof {
                    if has_key(self.entries(), component@) {
                        let j = crate::kv::key_index(self.entries(), component@);
                        assert(self.component_metrics@[j].0@ == component@);
                    }
                }
                None
            },
        }
    }

    /// Adds a raised alert.
    pub fn add_alert(&mut self, alert: AlertRecord)
        ensures
            final(self).alert_list() == old(self).alert_list().push(alert),
            final(self).entries() == old(self).entries(),
            final(self).enabled() == old(self).enabled(),
    {
        self.alerts.push(alert);
    }

    /// The statistics of every component, stamped `now`.
    pub fn take_snapshot_at(&self, now: u64) -> (snap: MetricsSnapshot)
        requires
            self.wf(),
        ensures
            snap.timestamp == now,
            snapshot_entries(snap) == self.entries(),
            as_map(snapshot_entries(snap)) == self.components(),
    {
        let mut components: Vec<(String, ComponentStats)> = Vec::new();
        let mut i: usize = 0;
        while i < self.component_metrics.len()
            invariant
                i <= self.component_metrics@.len(),
                components@.map_values(|e: (String, ComponentStats)| (e.0@, e.1)) == self.entries().take(i as int),
            decreases self.component_metrics@.len() - i,
        {
            let ghost before = components@.map_values(|e: (String, ComponentStats)| (e.0@, e.1));
            let name = self.component_metrics[i].0.clone();
            assert(name@ == self.component_metrics@[i as int].0@);
            components.push((name, self.component_metrics[i].1));
            assert(self.entries()[i as int] == (self.component_metrics@[i as int].0@, self.component_metrics@[i as int].1));
            assert(self.entries().take(i + 1) =~= self.entries().take(i as int).push(self.entries()[i as int]));
            assert(components@.map_values(|e: (String, ComponentStats)| (e.0@, e.1)) =~= self.entries().take(i + 1));
            i = i + 1;
        }
        assert(self.entries().take(self.entries().len() as int) =~= self.entries());
        MetricsSnapshot { timestamp: now, components }
    }

    /// The statistics of every component, stamped now by the system clock.
    pub fn take_snapshot(&self) -> (snap: MetricsSnapshot)
        requires
            self.wf(),
        ensures
            snapshot_entries(snap) == self.entries(),
            as_map(snapshot_entries(snap)) == self.components(),
    {
        self.take_snapshot_at(crate::util::clock_millis() / 1000)
    }

    /// The alerts raised, oldest first.
    pub fn get_alerts(&self) -> (a: &Vec<AlertRecord>)
        ensures
            a@ == self.alert_list(),
    {
        &self.alerts
    }

    /// Marks the first alert with identifier `alert_id` as acknowledged.
    pub fn acknowledge_alert(&mut self, alert_id: &str) -> (r: Result<(), crate::error::LunaError>)
        ensures
            r is Ok,
            final(self).entries() == old(self).entries(),
            final(self).enabled() == old(self).enabled(),
            final(self).alert_list().len() == old(self).alert_list().len(),
            forall|i: int| 0 <= i < old(self).alert_list().len() ==> {
                let a = old(self).alert_list()[i];
                let b = #[trigger] final(self).alert_list()[i];
                &&& b.id == a.id && b.alert_type == a.alert_type && b.severity == a.severity
                &&& b.message == a.message && b.component == a.component && b.timestamp == a.timestamp
                &&& b.acknowledged == (a.acknowledged || (a.id@ == alert_id@ && forall|j: int|
                    0 <= j < i ==> (#[trigger] old(self).alert_list()[j]).id@ != alert_id@))
            },
    {
        let ghost before = self.alerts@;
        let mut i: usize = 0;
        while i < self.alerts.len() && !crate::text::str_eq(self.alerts[i].id.as_str(), alert_id)
            invariant
                i <= self.alerts.len(),
                self.alerts@ == before,
                forall|j: int| 0 <= j < i ==> (#[trigger] before[j]).id@ != alert_id@,
            decreases self.alerts.len() - i,
        {
            i = i + 1;
        }
        if i < self.alerts.len() {
            let a = &self.alerts[i];
            let updated = AlertRecord {
                id: a.id.clone(),
                alert_type: a.alert_type,
                severity: a.severity,
                message: a.message.clone(),
                component: match &a.component {
                    Some(c) => Some(c.clone()),
                    None => None,
                },
                timestamp: a.timestamp,
                acknowledged: true,
            };
            self.alerts.set(i, updated);
        }
        Ok(())
    }

    /// Drops the alerts raised an hour or more before `now`.
    pub fn clear_old_alerts_at(&mut self, now: u64)
        requires
            now >= 3600,
        ensures
            final(self).entries() == old(self).entries(),
            final(self).enabled() == old(self).enabled(),
            final(self).alert_list() == old(self).alert_list().filter(|a: AlertRecord| a.timestamp > now - 3600),
    {
        let cutoff = now - 3600;
        let ghost before = self.alerts@;
        let mut kept: Vec<AlertRecord> = Vec::new();
        let mut i: usize = 0;
        while i < self.alerts.len()
            invariant
                i <= self.alerts.len(),
                self.alerts@ == before,
                cutoff == now - 3600,
                kept@ == before.take(i as int).filter(|a: AlertRecord| a.timestamp > now - 3600),
            decreases self.alerts.len() - i,
        {
            proof {
                before.take(i as int).lemma_filter_push(before[i as int], |a: AlertRecord| a.timestamp > now - 3600);
                assert(before.take(i + 1) =~= before.take(i as int).push(before[i as int]));
            }
            if self.alerts[i].timestamp > cutoff {
                let a = &self.alerts[i];
                let copy = AlertRecord {
                    id: a.id.clone(),
                    alert_type: a.alert_type,
                    severity: a.severity,
                    message: a.message.clone(),
                    component: match &a.component {
                        Some(c) => Some(c.clone()),
                        None => None,
                    },
                    timestamp: a.timestamp,
                    acknowledged: a.acknowledged,
                };
                assert(copy == before[i as int]);
                kept.push(copy);
            }
            i = i + 1;
        }
        assert(before.take(before.len() as int) =~= before);
        self.alerts = kept;
    }

    /// Drops the alerts raised an hour or more ago, by the system clock:
    /// the alerts kept are, in order, those raised after an hour before
    /// the clock reading, or all of them while the clock reads under an
    /// hour since the epoch.
    pub fn clear_old_alerts(&mut self)
        ensures
            final(self).entries() == old(self).entries(),
            final(self).enabled() == old(self).enabled(),
            final(self).alert_list().len() <= old(self).alert_list().len(),
            exists|now: u64|
                #![trigger recent_alerts(old(self).alert_list(), now)]
                final(self).alert_list() == recent_alerts(old(self).alert_list(), now),
    {
        let now = crate::util::clock_millis() / 1000;
        if now >= 3600 {
            self.clear_old_alerts_at(now);
            proof {
                old(self).alert_list().lemma_filter_len(|a: AlertRecord| a.timestamp > now - 3600);
                assert(self.alert_list() == recent_alerts(old(self).alert_list(), now));
            }
        } else {
            assert(self.alert_list() == recent_alerts(old(self).alert_list(), now));
        }
    }
}

/// The alerts of `s` that a cleanup at the clock reading `now` (seconds)
/// keeps: those raised after an hour before `now`; all of them while `now`
/// is under an hour.
pub open spec fn recent_alerts(s: Seq<AlertRecord>, now: u64) -> Seq<AlertRecord> {
    if now >= 3600 {
        s.filter(|a: AlertRecord| a.timestamp > now - 3600)
    } else {
        s
    }
}

/// Times one operation of a component and records it when finished.
pub struct PerformanceTimer {
    pub component: String,
    pub operation: String,
    pub start_ms: u64,
    pub memory_start: u64,
}

impl PerformanceTimer {
    /// A timer started at the clock reading `start_ms` with `memory` bytes
    /// in use.
    pub fn start_at(component: &str, operation: &str, start_ms: u64, memory: &MemoryManager) -> (t: Self)
        ensures
            t.component@ == component@,
            t.operation@ == operation@,
            t.start_ms == start_ms,
            t.memory_start == memory.usage(),
    {
        PerformanceTimer {
            component: String::from_str(component),
            operation: String::from_str(operation),
            start_ms,
            memory_start: memory.current_usage(),
        }
    }

    /// A timer started now.
    pub fn start(component: &str, operation: &str, memory: &MemoryManager) -> (t: Self)
        ensures
            t.component@ == component@,
            t.operation@ == operation@,
            t.memory_start == memory.usage(),
    {
        Self::start_at(component, operation, crate::util::clock_millis(), memory)
    }

    /// Stops the timer at the clock reading `now_ms` and records the
    /// operation: its duration, its outcome, and the growth of memory use
    /// since the start. Returns the duration.
    pub fn finish_at(self, success: bool, now_ms: u64, collector: &mut MetricsCollector, memory: &MemoryManager) -> (ms: u64)
        requires
            old(collector).wf(),
        ensures
            final(collector).wf(),
            ms == (if now_ms >= self.start_ms {
                now_ms - self.start_ms
            } else {
                0
            }),
            old(collector).enabled() ==> final(collector).components() == old(collector).components().insert(
                self.component@,
                after_operation(
                    if old(collector).components().contains_key(self.component@) {
                        old(collector).components()[self.component@]
                    } else {
                        fresh_stats()
                    },
                    ms,
                    success,
                    (if memory.usage() >= self.memory_start {
                        memory.usage() - self.memory_start
                    } else {
                        0
                    }) as u64,
                    now_ms / 1000,
                ),
            ),
            !old(collector).enabled() ==> final(collector).components() == old(collector).components(),
    {
        let ms = now_ms.saturating_sub(self.start_ms);
        let used = memory.current_usage().saturating_sub(self.memory_start);
        let _ = collector.record_component_operation_at(self.component.as_str(), ms, success, used, now_ms / 1000);
        ms
    }

    /// Stops the timer now and records the operation; returns its duration.
    /// What it records is what `finish_at` records at the clock reading of
    /// the call.
    pub fn finish(self, success: bool, collector: &mut MetricsCollector, memory: &MemoryManager) -> (ms: u64)
        requires
            old(collector).wf(),
        ensures
            final(collector).wf(),
            exists|now_ms: u64|
                #![trigger self.finished_at(success, now_ms, *old(collector), *final(collector), memory.usage(), ms)]
                self.finished_at(success, now_ms, *old(collector), *final(collector), memory.usage(), ms),
    {
        let now = crate::util::clock_millis();
        let ghost before = *collector;
        let ms = self.finish_at(success, now, collector, memory);
        assert(self.finished_at(success, now, before, *collector, memory.usage(), ms));
        ms
    }

    /// Stopping the timer at the clock reading `now_ms`, with `success` and
    /// `usage` bytes in use, took `ms` and turned the collector `before`
    /// into `after`: as `finish_at` states.
    pub open spec fn finished_at(
        self,
        success: bool,
        now_ms: u64,
        before: MetricsCollector,
        after: MetricsCollector,
        usage: u64,
        ms: u64,
    ) -> bool {
        &&& ms == (if now_ms >= self.start_ms {
            now_ms - self.start_ms
        } else {
            0
        })
        &&& before.enabled() ==> after.components() == before.components().insert(
            self.component@,
            after_operation(
                if before.components().contains_key(self.component@) {
                    before.components()[self.component@]
                } else {
                    fresh_stats()
                },
                ms,
                success,
                (if usage >= self.memory_start {
                    usage - self.memory_start
                } else {
                    0
                }) as u64,
                now_ms / 1000,
            ),
        )
        &&& !before.enabled() ==> after.components() == before.components()
    }
}

} // verus!
