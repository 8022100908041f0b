//! Log levels, level filtering, and the text of log lines with their
//! timestamps.

use vstd::prelude::*;
use vstd::string::StringExecFns;
use crate::text::{append_decimal, decimal, push_char};

verus! {

/// How important a log message is, most important first.
#[derive(Debug, Clone, Copy, PartialEq, Eq, PartialOrd, Ord)]
pub enum LogLevel {
    Error,
    Warn,
    Info,
    Debug,
    Trace,
}

impl LogLevel {
    /// The level's place in the order, `Error` first.
    pub open spec fn spec_rank(self) -> int {
        match self {
            LogLevel::Error => 0,
            LogLevel::Warn => 1,
            LogLevel::Info => 2,
            LogLevel::Debug => 3,
            LogLevel::Trace => 4,
        }
    }

    /// The level's place in the order, `Error` first.
    pub fn rank(&self) -> (r: u8)
        ensures
            r == self.spec_rank(),
    {
        match self {
            LogLevel::Error => 0,
            LogLevel::Warn => 1,
            LogLevel::Info => 2,
            LogLevel::Debug => 3,
            LogLevel::Trace => 4,
        }
    }

    /// The five-character label a level is shown with.
    pub open spec fn spec_label(self) -> Seq<char> {
        match self {
            LogLevel::Error => "ERROR"@,
            LogLevel::Warn => "WARN "@,
            LogLevel::Info => "INFO "@,
            LogLevel::Debug => "DEBUG"@,
            LogLevel::Trace => "TRACE"@,
        }
    }

    /// The five-character label a level is shown with.
    pub fn label(&self) -> (s: &'static str)
        ensures
            s@ == self.spec_label(),
    {
        match self {
            LogLevel::Error => "ERROR",
            LogLevel::Warn => "WARN ",
            LogLevel::Info => "INFO ",
            LogLevel::Debug => "DEBUG",
            LogLevel::Trace => "TRACE",
        }
    }
}

/// `n` in decimal, left-padded with zeros to at least `width` digits.
pub open spec fn padded(n: nat, width: nat) -> Seq<char> {
    let d = decimal(n);
    if d.len() < width {
        Seq::new((width - d.len()) as nat, |i: int| '0') + d
    } else {
        d
    }
}

/// Ten to the power `k`.
pub open spec fn pow10(k: nat) -> nat
    decreases k,
{
    if k == 0 {
        1
    } else {
        10 * pow10((k - 1) as nat)
    }
}

/// A number below `10^k` has at most `k` digits.
proof fn lemma_decimal_len(n: nat, k: nat)
    requires
        1 <= k,
        n < pow10(k),
    ensures
        decimal(n).len() <= k,
    decreases k,
{
    if n >= 10 {
        assert(k >= 2) by {
            if k == 1 {
                assert(pow10(0) == 1);
                assert(pow10(1) == 10 * pow10(0));
            }
        }
        lemma_decimal_len(n / 10, (k - 1) as nat);
    }
}

/// The number of decimal digits of `n`.
fn digit_count(n: u64) -> (c: usize)
    ensures
        c == decimal(n as nat).len(),
    decreases n,
{
    if n < 10 {
        1
    } else {
        proof {
            reveal_with_fuel(pow10, 21);
            assert(pow10(20) == 100_000_000_000_000_000_000nat);
            lemma_decimal_len(n as nat, 20);
        }
        1 + digit_count(n / 10)
    }
}

/// Appends `n` in decimal, left-padded with zeros to `width` digits.
pub fn append_padded(s: &mut String, n: u64, width: usize)
    ensures
        final(s)@ == old(s)@ + padded(n as nat, width as nat),
{
    let d = digit_count(n);
    let ghost start = s@;
    let mut k: usize = 0;
    let pad = if d < width {
        width - d
    } else {
        0
    };
    while k < pad
        invariant
            k <= pad,
            s@ == start + Seq::new(k as nat, |i: int| '0'),
        decreases pad - k,
    {
        push_char(s, '0');
        assert(s@ =~= start + Seq::new((k + 1) as nat, |i: int| '0'));
        k = k + 1;
    }
    append_decimal(s, n);
    assert(final(s)@ =~= start + padded(n as nat, width as nat));
}

/// The calendar fields a log timestamp shows for `secs` seconds after the
/// epoch: years of 365 days and months of 30 days, as the log format has
/// always approximated them.
pub open spec fn timestamp_fields(secs: u64) -> (nat, nat, nat, nat, nat, nat) {
    let days = secs / 86400;
    let t = secs % 86400;
    (
        (1970 + days / 365) as nat,
        ((days % 365) / 30 + 1) as nat,
        ((days % 365) % 30 + 1) as nat,
        (t / 3600) as nat,
        ((t % 3600) / 60) as nat,
        (t % 60) as nat,
    )
}

/// The timestamp `YYYY-MM-DD HH:MM:SS.mmm` for `secs` seconds and `millis`
/// milliseconds after the epoch.
pub open spec fn timestamp_text(secs: u64, millis: u64) -> Seq<char> {
    let f = timestamp_fields(secs);
    padded(f.0, 4) + seq!['-'] + padded(f.1, 2) + seq!['-'] + padded(f.2, 2) + seq![' ']
        + padded(f.3, 2) + seq![':'] + padded(f.4, 2) + seq![':'] + padded(f.5, 2) + seq!['.']
        + padded(millis as nat, 3)
}

/// Formats the timestamp for `secs` seconds and `millis` milliseconds
/// after the epoch.
pub fn format_timestamp_at(secs: u64, millis: u64) -> (s: String)
    ensures
        s@ == timestamp_text(secs, millis),
{
    let days = secs / 86400;
    let t = secs % 86400;
    let year = 1970 + days / 365;
    let doy = days % 365;
    let mut s = String::new();
    append_padded(&mut s, year, 4);
    push_char(&mut s, '-');
    append_padded(&mut s, doy / 30 + 1, 2);
    push_char(&mut s, '-');
    append_padded(&mut s, doy % 30 + 1, 2);
    push_char(&mut s, ' ');
    append_padded(&mut s, t / 3600, 2);
    push_char(&mut s, ':');
    append_padded(&mut s, (t % 3600) / 60, 2);
    push_char(&mut s, ':');
    append_padded(&mut s, t % 60, 2);
    push_char(&mut s, '.');
    append_padded(&mut s, millis, 3);
    assert(s@ =~= timestamp_text(secs, millis));
    s
}

/// A log line: `"<timestamp> [<LEVEL>] <message>\n"`.
pub open spec fn log_line(timestamp: Seq<char>, level: LogLevel, message: Seq<char>) -> Seq<char> {
    timestamp + seq![' ', '['] + level.spec_label() + seq![']', ' '] + message + seq!['\n']
}

/// Where log lines go and which are kept.
#[derive(Debug, Clone)]
pub struct Logger {
    pub level: LogLevel,
    pub console: bool,
    pub file_path: Option<String>,
}

impl Logger {
    /// A logger that keeps `Info` and more important messages and writes
    /// to the console only.
    pub fn new() -> (l: Self)
        ensures
            l.level == LogLevel::Info,
            l.console,
            l.file_path is None,
    {
        Logger { level: LogLevel::Info, console: true, file_path: None }
    }

    /// The same logger keeping messages up to `level`.
    pub fn with_level(self, level: LogLevel) -> (l: Self)
        ensures
            l.level == level,
            l.console == self.console,
            l.file_path == self.file_path,
    {
        Logger { level, ..self }
    }

    /// The same logger, writing to the console or not.
    pub fn with_console(self, enabled: bool) -> (l: Self)
        ensures
            l.level == self.level,
            l.console == enabled,
            l.file_path == self.file_path,
    {
        Logger { console: enabled, ..self }
    }

    /// The same logger, also appending to the file `path` (opened by the
    /// caller).
    pub fn with_file_path(self, path: &str) -> (l: Self)
        ensures
            l.level == self.level,
            l.console == self.console,
            l.file_path matches Some(p) && p@ == path@,
    {
        Logger { file_path: Some(String::from_str(path)), ..self }
    }

    /// Whether a message of `level` is kept.
    pub fn should_log(&self, level: LogLevel) -> (b: bool)
        ensures
            b == (level.spec_rank() <= self.level.spec_rank()),
    {
        level.rank() <= self.level.rank()
    }

    /// The line to write for `message` at `level` at the clock reading
    /// `secs` seconds and `millis` milliseconds, or `None` when the level
    /// is filtered out.
    pub fn entry(&self, level: LogLevel, message: &str, secs: u64, millis: u64) -> (r: Option<String>)
        ensures
            level.spec_rank() <= self.level.spec_rank() ==> (r matches Some(line) && line@ == log_line(
                timestamp_text(secs, millis),
                level,
                message@,
            )),
            level.spec_rank() > self.level.spec_rank() ==> r is None,
    {
        if !self.should_log(level) {
            return None;
        }
        let mut line = format_timestamp_at(secs, millis);
        push_char(&mut line, ' ');
        push_char(&mut line, '[');
        line.append(level.label());
        push_char(&mut line, ']');
        push_char(&mut line, ' ');
        line.append(message);
        push_char(&mut line, '\n');
        assert(line@ =~= log_line(timestamp_text(secs, millis), level, message@));
        Some(line)
    }
}

/// A structured log event: its level, its event name, its message and its
/// named fields in order.
pub struct LogEvent {
    pub level: LogLevel,
    pub event: String,
    pub message: String,
    pub fields: Vec<(String, String)>,
}

/// The fields of `e` as character sequences.
pub open spec fn fields_view(e: &LogEvent) -> Seq<(Seq<char>, Seq<char>)> {
    e.fields@.map_values(|f: (String, String)| (f.0@, f.1@))
}

/// `e` is the event `(level, event, message, fields)`.
pub open spec fn is_event(e: &LogEvent, level: LogLevel, event: Seq<char>, message: Seq<char>, fields: Seq<(Seq<char>, Seq<char>)>) -> bool {
    e.level == level && e.event@ == event && e.message@ == message && fields_view(e) == fields
}

fn field(name: &str, value: &str) -> (f: (String, String))
    ensures
        f.0@ == name@,
        f.1@ == value@,
{
    (String::from_str(name), String::from_str(value))
}

fn number_field(name: &str, n: u64) -> (f: (String, String))
    ensures
        f.0@ == name@,
        f.1@ == decimal(n as nat),
{
    let mut v = String::new();
    append_decimal(&mut v, n);
    (String::from_str(name), v)
}

fn flag_field(name: &str, b: bool) -> (f: (String, String))
    ensures
        f.0@ == name@,
        f.1@ == (if b { "true"@ } else { "false"@ }),
{
    (String::from_str(name), String::from_str(if b { "true" } else { "false" }))
}

fn make_event(level: LogLevel, event: &str, message: &str, fields: Vec<(String, String)>) -> (e: LogEvent)
    ensures
        e.level == level,
        e.event@ == event@,
        e.message@ == message@,
        e.fields@ == fields@,
{
    LogEvent { level, event: String::from_str(event), message: String::from_str(message), fields }
}

/// The event for a command starting.
pub fn log_command_start(command: &str) -> (e: LogEvent)
    ensures
        is_event(&e, LogLevel::Info, "command_start"@, "Starting command execution"@, seq![("command"@, command@)]),
{
    let mut f: Vec<(String, String)> = Vec::new();
    f.push(field("command", command));
    let e = make_event(LogLevel::Info, "command_start", "Starting command execution", f);
    assert(fields_view(&e) =~= seq![("command"@, command@)]);
    e
}

/// The event for a command that succeeded after `duration_ms`.
pub fn log_command_success(command: &str, duration_ms: u64) -> (e: LogEvent)
    ensures
        is_event(
            &e,
            LogLevel::Info,
            "command_success"@,
            "Command completed successfully"@,
            seq![("command"@, command@), ("duration_ms"@, decimal(duration_ms as nat))],
        ),
{
    let mut f: Vec<(String, String)> = Vec::new();
    f.push(field("command", command));
    f.push(number_field("duration_ms", duration_ms));
    let e = make_event(LogLevel::Info, "command_success", "Command completed successfully", f);
    assert(fields_view(&e) =~= seq![("command"@, command@), ("duration_ms"@, decimal(duration_ms as nat))]);
    e
}

/// The event for a command that failed with `error` after `duration_ms`.
pub fn log_command_error(command: &str, error: &str, duration_ms: u64) -> (e: LogEvent)
    ensures
        is_event(
            &e,
            LogLevel::Error,
            "command_error"@,
            "Command failed"@,
            seq![("command"@, command@), ("error"@, error@), ("duration_ms"@, decimal(duration_ms as nat))],
        ),
{
    let mut f: Vec<(String, String)> = Vec::new();
    f.push(field("command", command));
    f.push(field("error", error));
    f.push(number_field("duration_ms", duration_ms));
    let e = make_event(LogLevel::Error, "command_error", "Command failed", f);
    assert(fields_view(&e) =~= seq![
        ("command"@, command@),
        ("error"@, error@),
        ("duration_ms"@, decimal(duration_ms as nat)),
    ]);
    e
}

/// The event for an analysis step by `model`: completed at `Info` when it
/// succeeded, failed at `Warn` otherwise.
pub fn log_ai_processing(model: &str, operation: &str, processing_time_ms: u64, success: bool) -> (e: LogEvent)
    ensures
        is_event(
            &e,
            if success { LogLevel::Info } else { LogLevel::Warn },
            if success { "ai_processing_success"@ } else { "ai_processing_failed"@ },
            if success { "AI processing completed"@ } else { "AI processing failed"@ },
            seq![("model"@, model@), ("operation"@, operation@), ("processing_time_ms"@, decimal(processing_time_ms as nat))],
        ),
{
    let mut f: Vec<(String, String)> = Vec::new();
    f.push(field("model", model));
    f.push(field("operation", operation));
    f.push(number_field("processing_time_ms", processing_time_ms));
    let e = if success {
        make_event(LogLevel::Info, "ai_processing_success", "AI processing completed", f)
    } else {
        make_event(LogLevel::Warn, "ai_processing_failed", "AI processing failed", f)
    };
    assert(fields_view(&e) =~= seq![
        ("model"@, model@),
        ("operation"@, operation@),
        ("processing_time_ms"@, decimal(processing_time_ms as nat)),
    ]);
    e
}

/// The event for a command the safety checks refused.
pub fn log_safety_block(command: &str, reason: &str) -> (e: LogEvent)
    ensures
        is_event(
            &e,
            LogLevel::Warn,
            "safety_block"@,
            "Command blocked by safety system"@,
            seq![("command"@, command@), ("reason"@, reason@)],
        ),
{
    let mut f: Vec<(String, String)> = Vec::new();
    f.push(field("command", command));
    f.push(field("reason", reason));
    let e = make_event(LogLevel::Warn, "safety_block", "Command blocked by safety system", f);
    assert(fields_view(&e) =~= seq![("command"@, command@), ("reason"@, reason@)]);
    e
}

/// The event for a system event.
pub fn log_system_event(event_type: &str, details: &str) -> (e: LogEvent)
    ensures
        is_event(
            &e,
            LogLevel::Info,
            "system_event"@,
            "System event occurred"@,
            seq![("event_type"@, event_type@), ("details"@, details@)],
        ),
{
    let mut f: Vec<(String, String)> = Vec::new();
    f.push(field("event_type", event_type));
    f.push(field("details", details));
    let e = make_event(LogLevel::Info, "system_event", "System event occurred", f);
    assert(fields_view(&e) =~= seq![("event_type"@, event_type@), ("details"@, details@)]);
    e
}

/// The level a setting names (`trace`, `debug`, `info`, `warn`, `error`),
/// `Info` for anything else or no setting.
pub open spec fn level_of_setting(setting: Option<Seq<char>>) -> LogLevel {
    match setting {
        Some(s) => if s == "trace"@ {
            LogLevel::Trace
        } else if s == "debug"@ {
            LogLevel::Debug
        } else if s == "info"@ {
            LogLevel::Info
        } else if s == "warn"@ {
            LogLevel::Warn
        } else if s == "error"@ {
            LogLevel::Error
        } else {
            LogLevel::Info
        },
        None => LogLevel::Info,
    }
}

/// The level a setting names, `Info` for anything else or no setting.
pub fn log_level_from_setting(setting: Option<&str>) -> (l: LogLevel)
    ensures
        l == level_of_setting(
            match setting {
                Some(s) => Some(s@),
                None => None,
            },
        ),
{
    match setting {
        Some(s) => {
            if crate::text::str_eq(s, "trace") {
                LogLevel::Trace
            } else if crate::text::str_eq(s, "debug") {
                LogLevel::Debug
            } else if crate::text::str_eq(s, "info") {
                LogLevel::Info
            } else if crate::text::str_eq(s, "warn") {
                LogLevel::Warn
            } else if crate::text::str_eq(s, "error") {
                LogLevel::Error
            } else {
                LogLevel::Info
            }
        },
        None => LogLevel::Info,
    }
}

/// The context of one operation being logged: its name, when it started
/// and the fields added to it, each name once.
pub struct LogContext {
    operation: String,
    start_ms: u64,
    fields: Vec<(String, String)>,
}

impl LogContext {
    /// The operation's name.
    pub closed spec fn operation_name(self) -> Seq<char> {
        self.operation@
    }

    /// The clock reading the operation started at.
    pub closed spec fn started(self) -> u64 {
        self.start_ms
    }

    /// The fields added, in the order they were first added.
    pub closed spec fn field_list(self) -> Seq<(Seq<char>, Seq<char>)> {
        self.fields@.map_values(|f: (String, String)| (f.0@, f.1@))
    }

    /// No field name twice.
    pub closed spec fn wf(self) -> bool {
        crate::kv::keys_distinct(self.field_list())
    }

    /// A context for `operation` started at the clock reading `now_ms`.
    pub fn new_at(operation: &str, now_ms: u64) -> (c: Self)
        ensures
            c.wf(),
            c.operation_name() == operation@,
            c.started() == now_ms,
            c.field_list() == Seq::<(Seq<char>, Seq<char>)>::empty(),
    {
        let c = LogContext { operation: String::from_str(operation), start_ms: now_ms, fields: Vec::new() };
        assert(c.field_list() =~= Seq::<(Seq<char>, Seq<char>)>::empty());
        c
    }

    /// A context for `operation` started now.
    pub fn new(operation: &str) -> (c: Self)
        ensures
            c.wf(),
            c.operation_name() == operation@,
            c.field_list() == Seq::<(Seq<char>, Seq<char>)>::empty(),
    {
        LogContext::new_at(operation, crate::util::clock_millis())
    }

    /// Sets the field `key` to `value`: replaced in place when present,
    /// appended otherwise.
    pub fn add_field(&mut self, key: &str, value: &str)
        requires
            old(self).wf(),
        ensures
            final(self).wf(),
            final(self).operation_name() == old(self).operation_name(),
            final(self).started() == old(self).started(),
            final(self).field_list() == crate::codec::insert_pair(old(self).field_list(), key@, value@),
    {
        let ghost before = self.fields@;
        crate::codec::put_pair(&mut self.fields, String::from_str(key), String::from_str(value));
        assert(self.field_list() == crate::codec::pairs_view(self.fields@));
        assert(crate::codec::pairs_view(before) == old(self).field_list());
    }

    fn finish_fields(&self, now_ms: u64, success: bool, error: Option<&str>) -> (f: Vec<(String, String)>)
        ensures
            f@.map_values(|p: (String, String)| (p.0@, p.1@)) == context_fields(
                self.operation_name(),
                if now_ms >= self.started() { (now_ms - self.started()) as nat } else { 0nat },
                success,
                match error {
                    Some(e) => Some(e@),
                    None => None,
                },
                self.field_list(),
            ),
    {
        let mut f: Vec<(String, String)> = Vec::new();
        f.push(field("operation", self.operation.as_str()));
        f.push(number_field("duration_ms", now_ms.saturating_sub(self.start_ms)));
        f.push(flag_field("success", success));
        match error {
            Some(e) => {
                f.push(field("error", e));
            },
            None => {},
        }
        let ghost head = f@.map_values(|p: (String, String)| (p.0@, p.1@));
        let mut k: usize = 0;
        while k < self.fields.len()
            invariant
                k <= self.fields.len(),
                f@.map_values(|p: (String, String)| (p.0@, p.1@)) == head + self.field_list().take(k as int),
            decreases self.fields.len() - k,
        {
            let ghost before = f@;
            let (name, value) = (&self.fields[k].0, &self.fields[k].1);
            let fld = field(name.as_str(), value.as_str());
            let ghost fv = (fld.0@, fld.1@);
            f.push(fld);
            assert(self.field_list()[k as int] == (name@, value@));
            assert(f@.map_values(|p: (String, String)| (p.0@, p.1@)) =~= before.map_values(
                |p: (String, String)| (p.0@, p.1@),
            ).push(fv));
            assert(self.field_list().take(k + 1) =~= self.field_list().take(k as int).push(fv));
            assert(f@.map_values(|p: (String, String)| (p.0@, p.1@)) =~= head + self.field_list().take(k + 1));
            k = k + 1;
        }
        assert(self.field_list().take(self.fields.len() as int) =~= self.field_list());
        f
    }

    /// The event for the operation's success at the clock reading `now_ms`.
    pub fn success_at(self, now_ms: u64) -> (e: LogEvent)
        ensures
            is_event(
                &e,
                LogLevel::Info,
                "operation_complete"@,
                "Operation completed successfully"@,
                context_fields(
                    self.operation_name(),
                    if now_ms >= self.started() { (now_ms - self.started()) as nat } else { 0nat },
                    true,
                    None,
                    self.field_list(),
                ),
            ),
    {
        let f = self.finish_fields(now_ms, true, None);
        make_event(LogLevel::Info, "operation_complete", "Operation completed successfully", f)
    }

    /// The event for the operation's failure with `error` at the clock
    /// reading `now_ms`: its message is `Operation failed: ` and the error.
    pub fn error_at(self, error: &str, now_ms: u64) -> (e: LogEvent)
        ensures
            is_event(
                &e,
                LogLevel::Error,
                "operation_failed"@,
                "Operation failed: "@ + error@,
                context_fields(
                    self.operation_name(),
                    if now_ms >= self.started() { (now_ms - self.started()) as nat } else { 0nat },
                    false,
                    Some(error@),
                    self.field_list(),
                ),
            ),
    {
        let f = self.finish_fields(now_ms, false, Some(error));
        let mut message = String::from_str("Operation failed: ");
        message.append(error);
        LogEvent { level: LogLevel::Error, event: String::from_str("operation_failed"), message, fields: f }
    }

    /// The event for the operation's success now.
    pub fn success(self) -> (e: LogEvent)
        ensures
            e.level == LogLevel::Info,
            e.event@ == "operation_complete"@,
            exists|d: nat|
                #![trigger context_fields(self.operation_name(), d, true, None, self.field_list())]
                is_event(
                    &e,
                    LogLevel::Info,
                    "operation_complete"@,
                    "Operation completed successfully"@,
                    context_fields(self.operation_name(), d, true, None, self.field_list()),
                ),
    {
        let now = crate::util::clock_millis();
        let ghost d: nat = if now >= self.started() { (now - self.started()) as nat } else { 0nat };
        let ghost me = self;
        let e = self.success_at(now);
        assert(is_event(
            &e,
            LogLevel::Info,
            "operation_complete"@,
            "Operation completed successfully"@,
            context_fields(me.operation_name(), d, true, None, me.field_list()),
        ));
        e
    }

    /// The event for the operation's failure with `error` now.
    pub fn error(self, error: &str) -> (e: LogEvent)
        ensures
            e.level == LogLevel::Error,
            e.message@ == "Operation failed: "@ + error@,
            exists|d: nat|
                #![trigger context_fields(self.operation_name(), d, false, Some(error@), self.field_list())]
                is_event(
                    &e,
                    LogLevel::Error,
                    "operation_failed"@,
                    "Operation failed: "@ + error@,
                    context_fields(self.operation_name(), d, false, Some(error@), self.field_list()),
                ),
    {
        let now = crate::util::clock_millis();
        let ghost d: nat = if now >= self.started() { (now - self.started()) as nat } else { 0nat };
        let ghost me = self;
        let e = self.error_at(error, now);
        assert(is_event(
            &e,
            LogLevel::Error,
            "operation_failed"@,
            "Operation failed: "@ + error@,
            context_fields(me.operation_name(), d, false, Some(error@), me.field_list()),
        ));
        e
    }
}

/// The fields of an operation's closing event: its name, how long it took,
/// whether it succeeded, the error if any, then the fields added to it.
pub open spec fn context_fields(
    operation: Seq<char>,
    duration_ms: nat,
    success: bool,
    error: Option<Seq<char>>,
    added: Seq<(Seq<char>, Seq<char>)>,
) -> Seq<(Seq<char>, Seq<char>)> {
    let head = seq![
        ("operation"@, operation),
        ("duration_ms"@, decimal(duration_ms)),
        ("success"@, if success { "true"@ } else { "false"@ }),
    ];
    let with_error = match error {
        Some(e) => head.push(("error"@, e)),
        None => head,
    };
    with_error + added
}

/// How logging is set up: the level kept, whether and where to write a
/// file, how console lines look, and how large log files grow.
#[derive(Debug, Clone)]
pub struct LoggingConfig {
    pub level: LogLevel,
    pub log_to_file: bool,
    pub log_file: String,
    pub use_colors: bool,
    pub show_targets: bool,
    pub show_thread_ids: bool,
    pub show_thread_names: bool,
    pub max_file_size_mb: u64,
    pub max_files: usize,
}

impl LoggingConfig {
    /// The standard setup writing to `log_file`: `Info`, to the file,
    /// coloured, without targets or thread details, files of at most 10 MB,
    /// five of them kept.
    pub fn with_log_file(log_file: &str) -> (c: Self)
        ensures
            c.level == LogLevel::Info,
            c.log_to_file,
            c.log_file@ == log_file@,
            c.use_colors,
            !c.show_targets && !c.show_thread_ids && !c.show_thread_names,
            c.max_file_size_mb == 10,
            c.max_files == 5,
    {
        LoggingConfig {
            level: LogLevel::Info,
            log_to_file: true,
            log_file: String::from_str(log_file),
            use_colors: true,
            show_targets: false,
            show_thread_ids: false,
            show_thread_names: false,
            max_file_size_mb: 10,
            max_files: 5,
        }
    }
}

} // verus!
