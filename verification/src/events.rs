//! Event kinds, priorities, subscription filters and the event system's
//! running state.

use vstd::prelude::*;
use vstd::string::StringExecFns;
use crate::error::LunaError;

verus! {

/// How urgent an event is, least urgent first.
#[derive(Debug, Clone, Copy, PartialEq, Eq, PartialOrd, Ord, Structural)]
pub enum EventPriority {
    Low,
    Normal,
    High,
    Critical,
}

impl EventPriority {
    /// The priority's place in the order, `Low` first.
    pub open spec fn spec_rank(self) -> int {
        match self {
            EventPriority::Low => 0,
            EventPriority::Normal => 1,
            EventPriority::High => 2,
            EventPriority::Critical => 3,
        }
    }

    /// The priority's place in the order, `Low` first.
    pub fn rank(&self) -> (r: u8)
        ensures
            r == self.spec_rank(),
    {
        match self {
            EventPriority::Low => 0,
            EventPriority::Normal => 1,
            EventPriority::High => 2,
            EventPriority::Critical => 3,
        }
    }
}

/// What happened.
#[derive(Debug, Clone)]
pub enum LunaEventType {
    SystemStartup,
    SystemShutdown,
    SystemError,
    MemoryPressure,
    AiModelLoaded,
    AiModelUnloaded,
    AiInferenceStarted,
    AiInferenceCompleted,
    AiInferenceFailed,
    ScreenCaptured,
    ElementDetected,
    ElementAnalyzed,
    VoiceCommandReceived,
    TextCommandReceived,
    HotkeyPressed,
    CommandParsed,
    CommandValidated,
    ActionPlanned,
    ActionPreview,
    ActionConfirmed,
    ActionCancelled,
    ActionExecuted,
    ActionFailed,
    OverlayShown,
    OverlayHidden,
    CountdownStarted,
    CountdownCancelled,
    UserInteraction,
    SafetyCheckStarted,
    SafetyCheckPassed,
    SafetyCheckFailed,
    UnsafeActionBlocked,
    Custom(String),
}

impl LunaEventType {
    /// The kind's position in the list of kinds; plugin events come last.
    pub open spec fn spec_code(&self) -> int {
        match self {
            LunaEventType::SystemStartup => 0,
            LunaEventType::SystemShutdown => 1,
            LunaEventType::SystemError => 2,
            LunaEventType::MemoryPressure => 3,
            LunaEventType::AiModelLoaded => 4,
            LunaEventType::AiModelUnloaded => 5,
            LunaEventType::AiInferenceStarted => 6,
            LunaEventType::AiInferenceCompleted => 7,
            LunaEventType::AiInferenceFailed => 8,
            LunaEventType::ScreenCaptured => 9,
            LunaEventType::ElementDetected => 10,
            LunaEventType::ElementAnalyzed => 11,
            LunaEventType::VoiceCommandReceived => 12,
            LunaEventType::TextCommandReceived => 13,
            LunaEventType::HotkeyPressed => 14,
            LunaEventType::CommandParsed => 15,
            LunaEventType::CommandValidated => 16,
            LunaEventType::ActionPlanned => 17,
            LunaEventType::ActionPreview => 18,
            LunaEventType::ActionConfirmed => 19,
            LunaEventType::ActionCancelled => 20,
            LunaEventType::ActionExecuted => 21,
            LunaEventType::ActionFailed => 22,
            LunaEventType::OverlayShown => 23,
            LunaEventType::OverlayHidden => 24,
            LunaEventType::CountdownStarted => 25,
            LunaEventType::CountdownCancelled => 26,
            LunaEventType::UserInteraction => 27,
            LunaEventType::SafetyCheckStarted => 28,
            LunaEventType::SafetyCheckPassed => 29,
            LunaEventType::SafetyCheckFailed => 30,
            LunaEventType::UnsafeActionBlocked => 31,
            LunaEventType::Custom(_) => 32,
        }
    }

    /// The kind's position in the list of kinds.
    pub fn code(&self) -> (c: u8)
        ensures
            c == self.spec_code(),
    {
        match self {
            LunaEventType::SystemStartup => 0,
            LunaEventType::SystemShutdown => 1,
            LunaEventType::SystemError => 2,
            LunaEventType::MemoryPressure => 3,
            LunaEventType::AiModelLoaded => 4,
            LunaEventType::AiModelUnloaded => 5,
            LunaEventType::AiInferenceStarted => 6,
            LunaEventType::AiInferenceCompleted => 7,
            LunaEventType::AiInferenceFailed => 8,
            LunaEventType::ScreenCaptured => 9,
            LunaEventType::ElementDetected => 10,
            LunaEventType::ElementAnalyzed => 11,
            LunaEventType::VoiceCommandReceived => 12,
            LunaEventType::TextCommandReceived => 13,
            LunaEventType::HotkeyPressed => 14,
            LunaEventType::CommandParsed => 15,
            LunaEventType::CommandValidated => 16,
            LunaEventType::ActionPlanned => 17,
            LunaEventType::ActionPreview => 18,
            LunaEventType::ActionConfirmed => 19,
            LunaEventType::ActionCancelled => 20,
            LunaEventType::ActionExecuted => 21,
            LunaEventType::ActionFailed => 22,
            LunaEventType::OverlayShown => 23,
            LunaEventType::OverlayHidden => 24,
            LunaEventType::CountdownStarted => 25,
            LunaEventType::CountdownCancelled => 26,
            LunaEventType::UserInteraction => 27,
            LunaEventType::SafetyCheckStarted => 28,
            LunaEventType::SafetyCheckPassed => 29,
            LunaEventType::SafetyCheckFailed => 30,
            LunaEventType::UnsafeActionBlocked => 31,
            LunaEventType::Custom(_) => 32,
        }
    }

    /// The name the kind is shown with; plugin events as `custom_<name>`.
    pub open spec fn spec_name(&self) -> Seq<char> {
        match self {
            LunaEventType::SystemStartup => "system_startup"@,
            LunaEventType::SystemShutdown => "system_shutdown"@,
            LunaEventType::SystemError => "system_error"@,
            LunaEventType::MemoryPressure => "memory_pressure"@,
            LunaEventType::AiModelLoaded => "ai_model_loaded"@,
            LunaEventType::AiModelUnloaded => "ai_model_unloaded"@,
            LunaEventType::AiInferenceStarted => "ai_inference_started"@,
            LunaEventType::AiInferenceCompleted => "ai_inference_completed"@,
            LunaEventType::AiInferenceFailed => "ai_inference_failed"@,
            LunaEventType::ScreenCaptured => "screen_captured"@,
            LunaEventType::ElementDetected => "element_detected"@,
            LunaEventType::ElementAnalyzed => "element_analyzed"@,
            LunaEventType::VoiceCommandReceived => "voice_command_received"@,
            LunaEventType::TextCommandReceived => "text_command_received"@,
            LunaEventType::HotkeyPressed => "hotkey_pressed"@,
            LunaEventType::CommandParsed => "command_parsed"@,
            LunaEventType::CommandValidated => "command_validated"@,
            LunaEventType::ActionPlanned => "action_planned"@,
            LunaEventType::ActionPreview => "action_preview"@,
            LunaEventType::ActionConfirmed => "action_confirmed"@,
            LunaEventType::ActionCancelled => "action_cancelled"@,
            LunaEventType::ActionExecuted => "action_executed"@,
            LunaEventType::ActionFailed => "action_failed"@,
            LunaEventType::OverlayShown => "overlay_shown"@,
            LunaEventType::OverlayHidden => "overlay_hidden"@,
            LunaEventType::CountdownStarted => "countdown_started"@,
            LunaEventType::CountdownCancelled => "countdown_cancelled"@,
            LunaEventType::UserInteraction => "user_interaction"@,
            LunaEventType::SafetyCheckStarted => "safety_check_started"@,
            LunaEventType::SafetyCheckPassed => "safety_check_passed"@,
            LunaEventType::SafetyCheckFailed => "safety_check_failed"@,
            LunaEventType::UnsafeActionBlocked => "unsafe_action_blocked"@,
            LunaEventType::Custom(n) => "custom_"@ + n@,
        }
    }

    /// The name the kind is shown with.
    pub fn name(&self) -> (s: String)
        ensures
            s@ == self.spec_name(),
    {
        match self {
            LunaEventType::SystemStartup => String::from_str("system_startup"),
            LunaEventType::SystemShutdown => String::from_str("system_shutdown"),
            LunaEventType::SystemError => String::from_str("system_error"),
            LunaEventType::MemoryPressure => String::from_str("memory_pressure"),
            LunaEventType::AiModelLoaded => String::from_str("ai_model_loaded"),
            LunaEventType::AiModelUnloaded => String::from_str("ai_model_unloaded"),
            LunaEventType::AiInferenceStarted => String::from_str("ai_inference_started"),
            LunaEventType::AiInferenceCompleted => String::from_str("ai_inference_completed"),
            LunaEventType::AiInferenceFailed => String::from_str("ai_inference_failed"),
            LunaEventType::ScreenCaptured => String::from_str("screen_captured"),
            LunaEventType::ElementDetected => String::from_str("element_detected"),
            LunaEventType::ElementAnalyzed => String::from_str("element_analyzed"),
            LunaEventType::VoiceCommandReceived => String::from_str("voice_command_received"),
            LunaEventType::TextCommandReceived => String::from_str("text_command_received"),
            LunaEventType::HotkeyPressed => String::from_str("hotkey_pressed"),
            LunaEventType::CommandParsed => String::from_str("command_parsed"),
            LunaEventType::CommandValidated => String::from_str("command_validated"),
            LunaEventType::ActionPlanned => String::from_str("action_planned"),
            LunaEventType::ActionPreview => String::from_str("action_preview"),
            LunaEventType::ActionConfirmed => String::from_str("action_confirmed"),
            LunaEventType::ActionCancelled => String::from_str("action_cancelled"),
            LunaEventType::ActionExecuted => String::from_str("action_executed"),
            LunaEventType::ActionFailed => String::from_str("action_failed"),
            LunaEventType::OverlayShown => String::from_str("overlay_shown"),
            LunaEventType::OverlayHidden => String::from_str("overlay_hidden"),
            LunaEventType::CountdownStarted => String::from_str("countdown_started"),
            LunaEventType::CountdownCancelled => String::from_str("countdown_cancelled"),
            LunaEventType::UserInteraction => String::from_str("user_interaction"),
            LunaEventType::SafetyCheckStarted => String::from_str("safety_check_started"),
            LunaEventType::SafetyCheckPassed => String::from_str("safety_check_passed"),
            LunaEventType::SafetyCheckFailed => String::from_str("safety_check_failed"),
            LunaEventType::UnsafeActionBlocked => String::from_str("unsafe_action_blocked"),
            LunaEventType::Custom(n) => {
                let mut s = String::from_str("custom_");
                s.append(n.as_str());
                s
            },
        }
    }

    /// A copy of the kind.
    pub fn duplicate(&self) -> (k: LunaEventType)
        ensures
            k == *self,
    {
        match self {
            LunaEventType::SystemStartup => LunaEventType::SystemStartup,
            LunaEventType::SystemShutdown => LunaEventType::SystemShutdown,
            LunaEventType::SystemError => LunaEventType::SystemError,
            LunaEventType::MemoryPressure => LunaEventType::MemoryPressure,
            LunaEventType::AiModelLoaded => LunaEventType::AiModelLoaded,
            LunaEventType::AiModelUnloaded => LunaEventType::AiModelUnloaded,
            LunaEventType::AiInferenceStarted => LunaEventType::AiInferenceStarted,
            LunaEventType::AiInferenceCompleted => LunaEventType::AiInferenceCompleted,
            LunaEventType::AiInferenceFailed => LunaEventType::AiInferenceFailed,
            LunaEventType::ScreenCaptured => LunaEventType::ScreenCaptured,
            LunaEventType::ElementDetected => LunaEventType::ElementDetected,
            LunaEventType::ElementAnalyzed => LunaEventType::ElementAnalyzed,
            LunaEventType::VoiceCommandReceived => LunaEventType::VoiceCommandReceived,
            LunaEventType::TextCommandReceived => LunaEventType::TextCommandReceived,
            LunaEventType::HotkeyPressed => LunaEventType::HotkeyPressed,
            LunaEventType::CommandParsed => LunaEventType::CommandParsed,
            LunaEventType::CommandValidated => LunaEventType::CommandValidated,
            LunaEventType::ActionPlanned => LunaEventType::ActionPlanned,
            LunaEventType::ActionPreview => LunaEventType::ActionPreview,
            LunaEventType::ActionConfirmed => LunaEventType::ActionConfirmed,
            LunaEventType::ActionCancelled => LunaEventType::ActionCancelled,
            LunaEventType::ActionExecuted => LunaEventType::ActionExecuted,
            LunaEventType::ActionFailed => LunaEventType::ActionFailed,
            LunaEventType::OverlayShown => LunaEventType::OverlayShown,
            LunaEventType::OverlayHidden => LunaEventType::OverlayHidden,
            LunaEventType::CountdownStarted => LunaEventType::CountdownStarted,
            LunaEventType::CountdownCancelled => LunaEventType::CountdownCancelled,
            LunaEventType::UserInteraction => LunaEventType::UserInteraction,
            LunaEventType::SafetyCheckStarted => LunaEventType::SafetyCheckStarted,
            LunaEventType::SafetyCheckPassed => LunaEventType::SafetyCheckPassed,
            LunaEventType::SafetyCheckFailed => LunaEventType::SafetyCheckFailed,
            LunaEventType::UnsafeActionBlocked => LunaEventType::UnsafeActionBlocked,
            LunaEventType::Custom(n) => LunaEventType::Custom(n.clone()),
        }
    }

    /// `self` and `other` are the same kind: the same fixed kind, or plugin
    /// events of the same name.
    pub open spec fn same_kind(&self, other: &LunaEventType) -> bool {
        match (self, other) {
            (LunaEventType::Custom(a), LunaEventType::Custom(b)) => a@ == b@,
            _ => self.spec_code() == other.spec_code(),
        }
    }

    /// Whether `self` and `other` are the same kind.
    pub fn same_as(&self, other: &LunaEventType) -> (b: bool)
        ensures
            b == self.same_kind(other),
    {
        match (self, other) {
            (LunaEventType::Custom(a), LunaEventType::Custom(b)) => *a == *b,
            _ => {
                self.code() == other.code()
            },
        }
    }
}

/// What a subscriber wants to receive: events from the listed sources, of
/// the listed kinds, at or above a priority; a missing part lets all
/// through.
#[derive(Debug, Clone)]
pub struct EventFilter {
    pub source_components: Option<Vec<String>>,
    pub event_types: Option<Vec<LunaEventType>>,
    pub min_priority: Option<EventPriority>,
}

/// An event from `source` of kind `kind` at priority `priority` passes
/// `filter`.
pub open spec fn passes(filter: EventFilter, source: Seq<char>, kind: LunaEventType, priority: EventPriority) -> bool {
    &&& filter.source_components matches Some(v) ==> exists|i: int| 0 <= i < v.len() && #[trigger] v[i]@ == source
    &&& filter.event_types matches Some(v) ==> exists|i: int| 0 <= i < v.len() && #[trigger] v[i].same_kind(&kind)
    &&& filter.min_priority matches Some(p) ==> priority.spec_rank() >= p.spec_rank()
}

/// Raising an event's priority never makes a filter withhold it: an event
/// that passes at `low` passes at every priority ranked at or above it.
pub proof fn lemma_priority_monotone(
    filter: EventFilter,
    source: Seq<char>,
    kind: LunaEventType,
    low: EventPriority,
    high: EventPriority,
)
    requires
        passes(filter, source, kind, low),
        high.spec_rank() >= low.spec_rank(),
    ensures
        passes(filter, source, kind, high),
{
}

/// An event from a listed source, of a listed kind, at a priority ranked
/// at or above the filter's minimum passes it; so does every event when
/// the filter sets none of the three.  The priorities rank
/// `Low < Normal < High < Critical`.
pub proof fn lemma_filter_admits(filter: EventFilter, source: Seq<char>, kind: LunaEventType, priority: EventPriority)
    requires
        filter.source_components matches Some(v) ==> exists|i: int| 0 <= i < v.len() && #[trigger] v[i]@ == source,
        filter.event_types matches Some(v) ==> exists|i: int| 0 <= i < v.len() && #[trigger] v[i].same_kind(&kind),
        filter.min_priority matches Some(p) ==> priority.spec_rank() >= p.spec_rank(),
    ensures
        passes(filter, source, kind, priority),
        EventPriority::Low.spec_rank() < EventPriority::Normal.spec_rank(),
        EventPriority::Normal.spec_rank() < EventPriority::High.spec_rank(),
        EventPriority::High.spec_rank() < EventPriority::Critical.spec_rank(),
{
}

/// A filter whose minimum is `min` withholds exactly the events ranked
/// below it, whatever their source and kind.
pub proof fn lemma_filter_withholds_below_minimum(
    filter: EventFilter,
    source: Seq<char>,
    kind: LunaEventType,
    priority: EventPriority,
    min: EventPriority,
)
    requires
        filter.min_priority == Some(min),
        priority.spec_rank() < min.spec_rank(),
    ensures
        !passes(filter, source, kind, priority),
{
}

/// Whether an event from `source` of kind `kind` at `priority` passes
/// `filter`.
pub fn event_matches_filter(source: &str, kind: &LunaEventType, priority: EventPriority, filter: &EventFilter) -> (b: bool)
    ensures
        b == passes(*filter, source@, *kind, priority),
{
    match &filter.source_components {
        Some(v) => {
            let mut i: usize = 0;
            let mut found = false;
            while i < v.len() && !found
                invariant
                    i <= v.len(),
                    found ==> exists|j: int| 0 <= j < v.len() && #[trigger] v@[j]@ == source@,
                    !found ==> forall|j: int| 0 <= j < i ==> (#[trigger] v@[j])@ != source@,
                decreases v.len() - i + (if found { 0int } else { 1int }),
            {
                if crate::text::str_eq(v[i].as_str(), source) {
                    found = true;
                } else {
                    i = i + 1;
                }
            }
            if !found {
                return false;
            }
        },
        None => {},
    }
    match &filter.event_types {
        Some(v) => {
            let mut i: usize = 0;
            let mut found = false;
            while i < v.len() && !found
                invariant
                    i <= v.len(),
                    found ==> exists|j: int| 0 <= j < v.len() && #[trigger] v@[j].same_kind(kind),
                    !found ==> forall|j: int| 0 <= j < i ==> !(#[trigger] v@[j].same_kind(kind)),
                decreases v.len() - i + (if found { 0int } else { 1int }),
            {
                if v[i].same_as(kind) {
                    found = true;
                } else {
                    i = i + 1;
                }
            }
            if !found {
                return false;
            }
        },
        None => {},
    }
    match filter.min_priority {
        Some(p) => priority.rank() >= p.rank(),
        None => true,
    }
}

/// Event counts.
#[derive(Debug, Clone, Copy)]
pub struct EventStats {
    pub events_published: u64,
    pub events_processed: u64,
    pub events_failed: u64,
    pub events_dropped: u64,
    pub subscribers_count: usize,
    pub queue_size: usize,
}

/// An event: what happened, where, how urgently and when, with its
/// payload as JSON text.
#[derive(Debug)]
pub struct LunaEvent {
    pub id: u128,
    pub event_type: LunaEventType,
    pub source: String,
    pub priority: EventPriority,
    pub timestamp: u64,
    pub data: String,
    pub correlation_id: Option<u128>,
}

impl LunaEvent {
    /// An event with the identifier `id`, stamped `timestamp` seconds,
    /// correlated with nothing.
    pub fn new_at(
        id: u128,
        timestamp: u64,
        event_type: LunaEventType,
        source: String,
        priority: EventPriority,
        data: String,
    ) -> (e: Self)
        ensures
            e == (LunaEvent { id, event_type, source, priority, timestamp, data, correlation_id: None }),
    {
        LunaEvent { id, event_type, source, priority, timestamp, data, correlation_id: None }
    }

    /// An event like `new_at` gives, correlated with `correlation_id`.
    pub fn with_correlation_at(
        id: u128,
        timestamp: u64,
        event_type: LunaEventType,
        source: String,
        priority: EventPriority,
        data: String,
        correlation_id: u128,
    ) -> (e: Self)
        ensures
            e == (LunaEvent {
                id,
                event_type,
                source,
                priority,
                timestamp,
                data,
                correlation_id: Some(correlation_id),
            }),
    {
        let mut e = Self::new_at(id, timestamp, event_type, source, priority, data);
        e.correlation_id = Some(correlation_id);
        e
    }

    /// A high-priority event from the source `system`.
    pub fn system_at(id: u128, timestamp: u64, event_type: LunaEventType, data: String) -> (e: Self)
        ensures
            e.id == id,
            e.timestamp == timestamp,
            e.event_type == event_type,
            e.source@ == "system"@,
            e.priority == EventPriority::High,
            e.data == data,
            e.correlation_id is None,
    {
        Self::new_at(id, timestamp, event_type, String::from_str("system"), EventPriority::High, data)
    }

    /// A critical `system_error` event from `source`, whose payload is the
    /// JSON object of the message and the timestamp.
    pub fn error_at(id: u128, timestamp: u64, source: String, error_message: &str) -> (e: Self)
        ensures
            e.id == id,
            e.timestamp == timestamp,
            e.event_type == LunaEventType::SystemError,
            e.source == source,
            e.priority == EventPriority::Critical,
            e.data@ == error_payload(error_message@, timestamp),
            e.correlation_id is None,
    {
        let data = error_payload_text(error_message, timestamp);
        Self::new_at(id, timestamp, LunaEventType::SystemError, source, EventPriority::Critical, data)
    }

    /// A copy of the event.
    pub fn duplicate(&self) -> (e: Self)
        ensures
            e == *self,
    {
        LunaEvent {
            id: self.id,
            event_type: self.event_type.duplicate(),
            source: self.source.clone(),
            priority: self.priority,
            timestamp: self.timestamp,
            data: self.data.clone(),
            correlation_id: self.correlation_id,
        }
    }
}

/// The low hexadecimal digit of the control character `c`, as
/// `serde_json` writes it (lower case).
pub open spec fn hex_low(c: char) -> char {
    let d = (c as u32) % 16;
    if d < 10 {
        crate::text::digit_char(d as nat)
    } else if d == 10 {
        'a'
    } else if d == 11 {
        'b'
    } else if d == 12 {
        'c'
    } else if d == 13 {
        'd'
    } else if d == 14 {
        'e'
    } else {
        'f'
    }
}

/// How `serde_json` writes the character `c` inside a JSON string: a
/// backslash before `"` and `\`; `\b`, `\f`, `\n`, `\r`, `\t` for those
/// control characters; `\u00` and two hexadecimal digits for the other
/// characters below 32; anything else as it is.
pub open spec fn json_char(c: char) -> Seq<char> {
    if c == '"' {
        seq!['\\', '"']
    } else if c == '\\' {
        seq!['\\', '\\']
    } else if c == '\u{8}' {
        seq!['\\', 'b']
    } else if c == '\u{c}' {
        seq!['\\', 'f']
    } else if c == '\n' {
        seq!['\\', 'n']
    } else if c == '\r' {
        seq!['\\', 'r']
    } else if c == '\t' {
        seq!['\\', 't']
    } else if (c as u32) < 32 {
        seq!['\\', 'u', '0', '0', if (c as u32) < 16 { '0' } else { '1' }, hex_low(c)]
    } else {
        seq![c]
    }
}

/// The characters of `s` as `serde_json` writes them inside a string.
pub open spec fn json_escaped(s: Seq<char>) -> Seq<char>
    decreases s.len(),
{
    if s.len() == 0 {
        Seq::empty()
    } else {
        json_escaped(s.drop_last()) + json_char(s.last())
    }
}

/// The JSON text of the object with the fields `error` (the message) and
/// `timestamp`, compact, keys in order.
pub open spec fn error_payload(message: Seq<char>, timestamp: u64) -> Seq<char> {
    "{\"error\":\""@ + json_escaped(message) + "\",\"timestamp\":"@ + crate::text::decimal(timestamp as nat) + "}"@
}

/// Builds a `serde_json::Value` object of the two fields and writes it
/// with `to_string` (compact `Display`; the map keeps its keys sorted):
/// the text is `error_payload`, the message escaped as `serde_json`'s
/// string writer escapes it and the number in decimal.
#[verifier::external_body]
fn error_payload_text(message: &str, timestamp: u64) -> (s: String)
    ensures
        s@ == error_payload(message@, timestamp),
{
    let mut m = serde_json::Map::new();
    m.insert(String::from("error"), serde_json::Value::String(message.to_string()));
    m.insert(String::from("timestamp"), serde_json::Value::from(timestamp));
    serde_json::Value::Object(m).to_string()
}

/// The most events waiting to be handed out.
pub const QUEUE_CAPACITY: usize = 10000;

/// The most events waiting in one subscriber's inbox.
pub const INBOX_CAPACITY: usize = 1000;

/// The kinds a new subscription with `filter` is routed for: the filter's
/// kinds, else five system, inference and action kinds when a filter is
/// given, else ten kinds across the system.
pub open spec fn routed_kinds(filter: Option<EventFilter>) -> Seq<LunaEventType> {
    match filter {
        Some(f) => match f.event_types {
            Some(v) => v@,
            None => seq![
                LunaEventType::SystemStartup,
                LunaEventType::SystemShutdown,
                LunaEventType::SystemError,
                LunaEventType::AiInferenceCompleted,
                LunaEventType::ActionExecuted,
            ],
        },
        None => seq![
            LunaEventType::SystemStartup,
            LunaEventType::SystemShutdown,
            LunaEventType::SystemError,
            LunaEventType::MemoryPressure,
            LunaEventType::AiModelLoaded,
            LunaEventType::AiInferenceCompleted,
            LunaEventType::ScreenCaptured,
            LunaEventType::VoiceCommandReceived,
            LunaEventType::ActionExecuted,
            LunaEventType::SafetyCheckFailed,
        ],
    }
}

/// A routing table: for each kind name, the subscriptions routed for it.
pub type Routes = Seq<(Seq<char>, Seq<u64>)>;

/// No two entries of `routes` have the same name.
pub open spec fn names_distinct(routes: Routes) -> bool {
    forall|i: int, j: int| 0 <= i < j < routes.len() ==> (#[trigger] routes[i]).0 != (#[trigger] routes[j]).0
}

/// `routes` with `id` added to the entry named `name`, or a new entry
/// `(name, [id])` at the end when there is none.
pub open spec fn add_route(routes: Routes, name: Seq<char>, id: u64) -> Routes {
    if exists|j: int| 0 <= j < routes.len() && (#[trigger] routes[j]).0 == name {
        let j = choose|j: int| 0 <= j < routes.len() && (#[trigger] routes[j]).0 == name;
        routes.update(j, (name, routes[j].1.push(id)))
    } else {
        routes.push((name, seq![id]))
    }
}

/// `routes` with `id` added for each kind of `kinds`, in order.
pub open spec fn add_routes(routes: Routes, kinds: Seq<LunaEventType>, id: u64) -> Routes
    decreases kinds.len(),
{
    if kinds.len() == 0 {
        routes
    } else {
        add_route(add_routes(routes, kinds.drop_last(), id), kinds.last().spec_name(), id)
    }
}

/// `ids` without `id`.
pub open spec fn without_id(ids: Seq<u64>, id: u64) -> Seq<u64>
    decreases ids.len(),
{
    if ids.len() == 0 {
        ids
    } else if ids.last() == id {
        without_id(ids.drop_last(), id)
    } else {
        without_id(ids.drop_last(), id).push(ids.last())
    }
}

/// `routes` with `id` taken out of every entry, and the entries left empty
/// dropped.
pub open spec fn without_subscriber(routes: Routes, id: u64) -> Routes
    decreases routes.len(),
{
    if routes.len() == 0 {
        routes
    } else {
        let rest = without_subscriber(routes.drop_last(), id);
        let kept = without_id(routes.last().1, id);
        if kept.len() == 0 {
            rest
        } else {
            rest.push((routes.last().0, kept))
        }
    }
}

/// The subscriptions routed for events named `name`.
pub open spec fn routed_to(routes: Routes, name: Seq<char>) -> Seq<u64> {
    if exists|j: int| 0 <= j < routes.len() && (#[trigger] routes[j]).0 == name {
        let j = choose|j: int| 0 <= j < routes.len() && (#[trigger] routes[j]).0 == name;
        routes[j].1
    } else {
        Seq::empty()
    }
}

/// A subscription's filter and the events waiting for it.
pub type InboxView = (Option<EventFilter>, Seq<LunaEvent>);

/// `e` goes to a subscription with `filter`: it has none, or `e` passes it.
pub open spec fn accepts(filter: Option<EventFilter>, e: LunaEvent) -> bool {
    match filter {
        Some(f) => passes(f, e.source@, e.event_type, e.priority),
        None => true,
    }
}

/// The inboxes after handing `e` to the subscriptions `ids` in order, and
/// how many of them were full: each accepting subscription gets `e` when
/// its inbox holds fewer than `INBOX_CAPACITY` events.
pub open spec fn deliver(inboxes: Seq<InboxView>, ids: Seq<u64>, e: LunaEvent) -> (Seq<InboxView>, nat)
    decreases ids.len(),
{
    if ids.len() == 0 {
        (inboxes, 0)
    } else {
        let (b, failed) = deliver(inboxes, ids.drop_last(), e);
        let k = ids.last() as int;
        if 0 <= k < b.len() && accepts(b[k].0, e) {
            if b[k].1.len() < INBOX_CAPACITY {
                (b.update(k, (b[k].0, b[k].1.push(e))), failed)
            } else {
                (b, failed + 1)
            }
        } else {
            (b, failed)
        }
    }
}

/// `a + b`, or the largest `u64` when that overflows.
pub open spec fn add_capped(a: u64, b: int) -> u64 {
    if a + b > u64::MAX {
        u64::MAX
    } else {
        (a + b) as u64
    }
}

/// The error `e` is an internal error of the event system with `message`.
pub open spec fn events_error(e: LunaError, message: Seq<char>) -> bool {
    e matches LunaError::Internal { message: m, component: c } && m@ == message && c@ == "events"@
}

/// The handle of a subscription.
#[derive(Debug)]
pub struct EventSubscription {
    id: u64,
}

impl EventSubscription {
    /// The subscription's number.
    pub closed spec fn number(self) -> u64 {
        self.id
    }

    /// The subscription's number.
    pub fn id(&self) -> (n: u64)
        ensures
            n == self.number(),
    {
        self.id
    }
}

struct Route {
    name: String,
    subscribers: Vec<u64>,
}

struct Inbox {
    filter: Option<EventFilter>,
    events: Vec<LunaEvent>,
}

/// The event system: whether it runs, the routing of event kinds to
/// subscriptions, the queue of published events, each subscription's
/// inbox, and the counts.  Subscriptions are numbered from 0 in the order
/// they are made; the caller runs the delivery loop.
pub struct EventSystem {
    running: u64,
    stats: EventStats,
    routes: Vec<Route>,
    inboxes: Vec<Inbox>,
    queue: Vec<LunaEvent>,
}

impl EventSystem {
    /// When the system was started (seconds since the epoch), 0 when it
    /// is stopped.
    pub closed spec fn started(self) -> u64 {
        self.running
    }

    /// The counts.
    pub closed spec fn counts(self) -> EventStats {
        self.stats
    }

    /// The routing table.
    pub closed spec fn routing(self) -> Routes {
        self.routes@.map_values(|r: Route| (r.name@, r.subscribers@))
    }

    /// The inbox of each subscription, by number.
    pub closed spec fn inbox_views(self) -> Seq<InboxView> {
        self.inboxes@.map_values(|b: Inbox| (b.filter, b.events@))
    }

    /// The published events not handed out yet, oldest first.
    pub closed spec fn queued(self) -> Seq<LunaEvent> {
        self.queue@
    }

    /// The routing table names each kind at most once.
    pub open spec fn wf(self) -> bool {
        names_distinct(self.routing())
    }

    /// A stopped system with zero counts, no subscriptions and no events.
    pub fn new() -> (s: Self)
        ensures
            s.wf(),
            s.started() == 0,
            s.counts() == (EventStats { events_published: 0, events_processed: 0, events_failed: 0, events_dropped: 0, subscribers_count: 0, queue_size: 0 }),
            s.routing() == Routes::empty(),
            s.inbox_views() == Seq::<InboxView>::empty(),
            s.queued() == Seq::<LunaEvent>::empty(),
    {
        let s = EventSystem {
            running: 0,
            stats: EventStats { events_published: 0, events_processed: 0, events_failed: 0, events_dropped: 0, subscribers_count: 0, queue_size: 0 },
            routes: Vec::new(),
            inboxes: Vec::new(),
            queue: Vec::new(),
        };
        assert(s.routing() =~= Routes::empty());
        assert(s.inbox_views() =~= Seq::<InboxView>::empty());
        s
    }

    /// Starts the system at `now` seconds with a fresh, empty queue.
    pub fn start_at(&mut self, now: u64) -> (r: Result<(), LunaError>)
        ensures
            r is Ok,
            final(self).started() == now,
            final(self).counts() == old(self).counts(),
            final(self).routing() == old(self).routing(),
            final(self).inbox_views() == old(self).inbox_views(),
            final(self).queued() == Seq::<LunaEvent>::empty(),
    {
        self.running = now;
        self.queue = Vec::new();
        Ok(())
    }

    /// Whether the system runs.
    pub fn is_running(&self) -> (b: bool)
        ensures
            b == (self.started() != 0),
    {
        self.running != 0
    }

    /// Stops the system: the queue is let go and every subscription is
    /// unrouted; the inboxes stay readable.
    pub fn stop(&mut self) -> (r: Result<(), LunaError>)
        ensures
            r is Ok,
            final(self).wf(),
            final(self).started() == 0,
            final(self).counts() == old(self).counts(),
            final(self).routing() == Routes::empty(),
            final(self).inbox_views() == old(self).inbox_views(),
            final(self).queued() == Seq::<LunaEvent>::empty(),
    {
        self.running = 0;
        self.queue = Vec::new();
        self.routes = Vec::new();
        assert(self.routing() =~= Routes::empty());
        Ok(())
    }

    /// The counts.
    pub fn get_stats(&self) -> (s: EventStats)
        ensures
            s == self.counts(),
    {
        self.stats
    }
}

impl EventSystem {
    /// Puts `event` at the end of the queue when the system runs and the
    /// queue holds fewer than `QUEUE_CAPACITY` events, counting it as
    /// published; otherwise counts it as dropped and refuses it.
    pub fn publish(&mut self, event: LunaEvent) -> (r: Result<(), LunaError>)
        ensures
            final(self).started() == old(self).started(),
            final(self).routing() == old(self).routing(),
            final(self).inbox_views() == old(self).inbox_views(),
            old(self).started() != 0 && old(self).queued().len() < QUEUE_CAPACITY ==> {
                &&& r is Ok
                &&& final(self).queued() == old(self).queued().push(event)
                &&& final(self).counts() == (EventStats {
                    events_published: add_capped(old(self).counts().events_published, 1),
                    ..old(self).counts()
                })
            },
            !(old(self).started() != 0 && old(self).queued().len() < QUEUE_CAPACITY) ==> {
                &&& r matches Err(e) && events_error(e, "Event queue is full, event dropped"@)
                &&& final(self).queued() == old(self).queued()
                &&& final(self).counts() == (EventStats {
                    events_dropped: add_capped(old(self).counts().events_dropped, 1),
                    ..old(self).counts()
                })
            },
    {
        if self.running != 0 && self.queue.len() < QUEUE_CAPACITY {
            self.queue.push(event);
            self.stats.events_published = self.stats.events_published.saturating_add(1);
            Ok(())
        } else {
            self.stats.events_dropped = self.stats.events_dropped.saturating_add(1);
            Err(LunaError::internal("Event queue is full, event dropped", "events"))
        }
    }

    /// Takes the oldest event waiting for `subscription`, if any.
    pub fn try_recv(&mut self, subscription: &EventSubscription) -> (r: Result<LunaEvent, LunaError>)
        ensures
            final(self).started() == old(self).started(),
            final(self).counts() == old(self).counts(),
            final(self).routing() == old(self).routing(),
            final(self).queued() == old(self).queued(),
            ({
                let k = subscription.number() as int;
                if k < old(self).inbox_views().len() && old(self).inbox_views()[k].1.len() > 0 {
                    &&& r == Ok::<LunaEvent, LunaError>(old(self).inbox_views()[k].1[0])
                    &&& final(self).inbox_views() == old(self).inbox_views().update(
                        k,
                        (old(self).inbox_views()[k].0, old(self).inbox_views()[k].1.drop_first()),
                    )
                } else {
                    &&& r matches Err(e) && events_error(e, "No event available or channel disconnected"@)
                    &&& final(self).inbox_views() == old(self).inbox_views()
                }
            }),
    {
        let k = subscription.id;
        if k < self.inboxes.len() as u64 && self.inboxes[k as usize].events.len() > 0 {
            let ghost before = self.inbox_views();
            let idx = k as usize;
            let mut inbox = self.inboxes.remove(idx);
            let e = inbox.events.remove(0);
            self.inboxes.insert(idx, inbox);
            assert(self.inbox_views() =~= before.update(idx as int, (before[idx as int].0, before[idx as int].1.drop_first())));
            Ok(e)
        } else {
            Err(LunaError::internal("No event available or channel disconnected", "events"))
        }
    }
}

/// Starts `system` now, by the system clock (stamped at least second 1,
/// so that it counts as running); the caller runs the delivery loop.
pub fn init(system: &mut EventSystem) -> (r: Result<(), LunaError>)
    ensures
        r is Ok,
        final(system).counts() == old(system).counts(),
        final(system).routing() == old(system).routing(),
        final(system).inbox_views() == old(system).inbox_views(),
        final(system).queued() == Seq::<LunaEvent>::empty(),
        final(system).started() != 0,
{
    let secs = crate::util::clock_millis() / 1000;
    let now = if secs == 0 {
        1
    } else {
        secs
    };
    system.start_at(now)
}

/// Stops `system`.
pub fn shutdown(system: &mut EventSystem) -> (r: Result<(), LunaError>)
    ensures
        r is Ok,
        final(system).started() == 0,
        final(system).routing() == Routes::empty(),
        final(system).counts() == old(system).counts(),
{
    system.stop()
}

/// Whether `system` runs: an internal error when it does not.
pub fn validate_system(system: &EventSystem) -> (r: Result<(), LunaError>)
    ensures
        system.started() != 0 ==> r is Ok,
        system.started() == 0 ==> (r matches Err(e) && events_error(e, "Event system not running"@)),
{
    if system.is_running() {
        Ok(())
    } else {
        Err(LunaError::internal("Event system not running", "events"))
    }
}

impl EventSystem {
    /// Adds `id` to the routing of events named `name`.
    fn add_route_for(&mut self, name: String, id: u64)
        requires
            old(self).wf(),
        ensures
            final(self).wf(),
            final(self).routing() == add_route(old(self).routing(), name@, id),
            final(self).started() == old(self).started(),
            final(self).counts() == old(self).counts(),
            final(self).inbox_views() == old(self).inbox_views(),
            final(self).queued() == old(self).queued(),
    {
        let ghost before = self.routing();
        let mut j: usize = 0;
        while j < self.routes.len()
            invariant
                j <= self.routes@.len(),
                self.routing() == before,
                before == old(self).routing(),
                names_distinct(before),
                before.len() == self.routes@.len(),
                forall|q: int| 0 <= q < j ==> (#[trigger] before[q]).0 != name@,
                self.running == old(self).running,
                self.stats == old(self).stats,
                self.inboxes@ == old(self).inboxes@,
                self.queue@ == old(self).queue@,
            decreases self.routes@.len() - j,
        {
            assert(before[j as int].0 == self.routes@[j as int].name@);
            if crate::text::str_eq(self.routes[j].name.as_str(), name.as_str()) {
                let mut r = self.routes.remove(j);
                r.subscribers.push(id);
                self.routes.insert(j, r);
                proof {
                    assert(self.routing() =~= before.update(j as int, (name@, before[j as int].1.push(id))));
                    assert(before[j as int].0 == name@);
                    let c = choose|c: int| 0 <= c < before.len() && (#[trigger] before[c]).0 == name@;
                    assert(c == j);
                    assert(add_route(before, name@, id) == before.update(j as int, (name@, before[j as int].1.push(id))));
                    assert forall|a: int, b: int| 0 <= a < b < self.routing().len() implies (#[trigger] self.routing()[a]).0
                        != (#[trigger] self.routing()[b]).0 by {
                        assert(self.routing()[a].0 == before[a].0);
                        assert(self.routing()[b].0 == before[b].0);
                    }
                }
                return;
            }
            j = j + 1;
        }
        let ghost n = name@;
        let mut v: Vec<u64> = Vec::new();
        v.push(id);
        self.routes.push(Route { name, subscribers: v });
        proof {
            assert(self.routing() =~= before.push((n, seq![id])));
            assert forall|a: int, b: int| 0 <= a < b < self.routing().len() implies (#[trigger] self.routing()[a]).0
                != (#[trigger] self.routing()[b]).0 by {
                if b == before.len() {
                    assert(before[a].0 != n);
                } else {
                    assert(self.routing()[a].0 == before[a].0);
                    assert(self.routing()[b].0 == before[b].0);
                }
            }
        }
    }
}

/// The kinds a subscription with `filter` is routed for.
fn kinds_for(filter: &Option<EventFilter>) -> (v: Vec<LunaEventType>)
    ensures
        v@ == routed_kinds(*filter),
{
    let mut v: Vec<LunaEventType> = Vec::new();
    match filter {
        Some(f) => match &f.event_types {
            Some(kinds) => {
                let mut i: usize = 0;
                while i < kinds.len()
                    invariant
                        i <= kinds@.len(),
                        v@ == kinds@.take(i as int),
                    decreases kinds@.len() - i,
                {
                    v.push(kinds[i].duplicate());
                    assert(kinds@.take(i + 1) =~= kinds@.take(i as int).push(kinds@[i as int]));
                    i = i + 1;
                }
                assert(kinds@.take(kinds@.len() as int) =~= kinds@);
            },
            None => {
                v.push(LunaEventType::SystemStartup);
                v.push(LunaEventType::SystemShutdown);
                v.push(LunaEventType::SystemError);
                v.push(LunaEventType::AiInferenceCompleted);
                v.push(LunaEventType::ActionExecuted);
                assert(v@ =~= routed_kinds(*filter));
            },
        },
        None => {
            v.push(LunaEventType::SystemStartup);
            v.push(LunaEventType::SystemShutdown);
            v.push(LunaEventType::SystemError);
            v.push(LunaEventType::MemoryPressure);
            v.push(LunaEventType::AiModelLoaded);
            v.push(LunaEventType::AiInferenceCompleted);
            v.push(LunaEventType::ScreenCaptured);
            v.push(LunaEventType::VoiceCommandReceived);
            v.push(LunaEventType::ActionExecuted);
            v.push(LunaEventType::SafetyCheckFailed);
            assert(v@ =~= routed_kinds(*filter));
        },
    }
    v
}

impl EventSystem {
    /// Makes a subscription, numbered by how many were made before, with
    /// `filter` and an empty inbox, and routes it for `routed_kinds(filter)`
    /// in order; the subscriber count becomes the number of routed names.
    pub fn subscribe(&mut self, filter: Option<EventFilter>) -> (r: Result<EventSubscription, LunaError>)
        requires
            old(self).wf(),
        ensures
            final(self).wf(),
            r matches Ok(sub) && sub.number() == old(self).inbox_views().len(),
            final(self).inbox_views() == old(self).inbox_views().push((filter, Seq::<LunaEvent>::empty())),
            final(self).routing() == add_routes(
                old(self).routing(),
                routed_kinds(filter),
                old(self).inbox_views().len() as u64,
            ),
            final(self).counts() == (EventStats { subscribers_count: final(self).routing().len() as usize, ..old(self).counts() }),
            final(self).started() == old(self).started(),
            final(self).queued() == old(self).queued(),
    {
        let id = self.inboxes.len() as u64;
        let kinds = kinds_for(&filter);
        let mut i: usize = 0;
        while i < kinds.len()
            invariant
                i <= kinds@.len(),
                kinds@ == routed_kinds(filter),
                id == old(self).inbox_views().len(),
                self.wf(),
                self.routing() == add_routes(old(self).routing(), kinds@.take(i as int), id),
                self.started() == old(self).started(),
                self.counts() == old(self).counts(),
                self.inbox_views() == old(self).inbox_views(),
                self.queued() == old(self).queued(),
            decreases kinds@.len() - i,
        {
            let name = kinds[i].name();
            self.add_route_for(name, id);
            assert(kinds@.take(i + 1).drop_last() =~= kinds@.take(i as int));
            i = i + 1;
        }
        assert(kinds@.take(kinds@.len() as int) =~= kinds@);
        let ghost boxes = self.inbox_views();
        self.inboxes.push(Inbox { filter, events: Vec::new() });
        assert(self.inbox_views() =~= boxes.push((filter, Seq::<LunaEvent>::empty())));
        self.stats.subscribers_count = self.routes.len();
        Ok(EventSubscription { id })
    }
}

/// `ids` without `id`.
fn ids_without(ids: &Vec<u64>, id: u64) -> (r: Vec<u64>)
    ensures
        r@ == without_id(ids@, id),
{
    let mut r: Vec<u64> = Vec::new();
    let mut i: usize = 0;
    while i < ids.len()
        invariant
            i <= ids@.len(),
            r@ == without_id(ids@.take(i as int), id),
        decreases ids@.len() - i,
    {
        assert(ids@.take(i + 1).drop_last() =~= ids@.take(i as int));
        if ids[i] != id {
            r.push(ids[i]);
        }
        i = i + 1;
    }
    assert(ids@.take(ids@.len() as int) =~= ids@);
    r
}

impl EventSystem {
    /// Takes the subscription numbered `subscription_id` out of every
    /// routing entry and drops the entries left empty; the subscriber count
    /// becomes the number of routed names.  Its inbox stays readable.
    pub fn unsubscribe(&mut self, subscription_id: u64) -> (r: Result<(), LunaError>)
        requires
            old(self).wf(),
        ensures
            r is Ok,
            final(self).wf(),
            final(self).routing() == without_subscriber(old(self).routing(), subscription_id),
            final(self).counts() == (EventStats { subscribers_count: final(self).routing().len() as usize, ..old(self).counts() }),
            final(self).started() == old(self).started(),
            final(self).inbox_views() == old(self).inbox_views(),
            final(self).queued() == old(self).queued(),
    {
        let ghost before = self.routing();
        let mut out: Vec<Route> = Vec::new();
        let mut i: usize = 0;
        while i < self.routes.len()
            invariant
                i <= self.routes@.len(),
                before == self.routing(),
                names_distinct(before),
                before.len() == self.routes@.len(),
                out@.map_values(|r: Route| (r.name@, r.subscribers@)) == without_subscriber(before.take(i as int), subscription_id),
                forall|q: int| 0 <= q < out@.len() ==> exists|p: int| 0 <= p < i && #[trigger] out@[q].name@ == before[p].0,
                names_distinct(out@.map_values(|r: Route| (r.name@, r.subscribers@))),
                self.running == old(self).running,
                self.stats == old(self).stats,
                self.inboxes@ == old(self).inboxes@,
                self.queue@ == old(self).queue@,
                before == old(self).routing(),
            decreases self.routes@.len() - i,
        {
            let ghost prev = out@.map_values(|r: Route| (r.name@, r.subscribers@));
            assert(before.take(i + 1).drop_last() =~= before.take(i as int));
            assert(before[i as int] == (self.routes@[i as int].name@, self.routes@[i as int].subscribers@));
            let kept = ids_without(&self.routes[i].subscribers, subscription_id);
            if kept.len() > 0 {
                let name = self.routes[i].name.clone();
                out.push(Route { name, subscribers: kept });
                assert(out@.map_values(|r: Route| (r.name@, r.subscribers@)) =~= prev.push((before[i as int].0, kept@)));
                assert forall|q: int| 0 <= q < out@.len() implies exists|p: int| 0 <= p < i + 1 && #[trigger] out@[q].name@
                    == before[p].0 by {
                    if q < out@.len() - 1 {
                        let p = choose|p: int| 0 <= p < i && #[trigger] out@[q].name@ == before[p].0;
                        assert(out@[q].name@ == before[p].0);
                    } else {
                        assert(out@[q].name@ == before[i as int].0);
                    }
                }
                let ghost now = out@.map_values(|r: Route| (r.name@, r.subscribers@));
                assert forall|a: int, b: int| 0 <= a < b < now.len() implies (#[trigger] now[a]).0 != (#[trigger] now[b]).0 by {
                    if b == now.len() - 1 {
                        let p = choose|p: int| 0 <= p < i && #[trigger] out@[a].name@ == before[p].0;
                        assert(now[a].0 == out@[a].name@);
                        assert(before[p].0 != before[i as int].0);
                    } else {
                        assert(now[a] == prev[a]);
                        assert(now[b] == prev[b]);
                    }
                }
            }
            i = i + 1;
        }
        assert(before.take(before.len() as int) =~= before);
        self.routes = out;
        self.stats.subscribers_count = self.routes.len();
        Ok(())
    }
}

impl EventSystem {
    /// Hands `e` to the subscription numbered `id` when it accepts it:
    /// into its inbox when that holds fewer than `INBOX_CAPACITY` events,
    /// else `true` for a full inbox.
    fn deliver_to(&mut self, id: u64, e: &LunaEvent) -> (full: bool)
        ensures
            final(self).routes@ == old(self).routes@,
            final(self).running == old(self).running,
            final(self).stats == old(self).stats,
            final(self).queue@ == old(self).queue@,
            ({
                let b = old(self).inbox_views();
                let k = id as int;
                if k < b.len() && accepts(b[k].0, *e) {
                    if b[k].1.len() < INBOX_CAPACITY {
                        final(self).inbox_views() == b.update(k, (b[k].0, b[k].1.push(*e))) && !full
                    } else {
                        final(self).inbox_views() == b && full
                    }
                } else {
                    final(self).inbox_views() == b && !full
                }
            }),
    {
        if id >= self.inboxes.len() as u64 {
            return false;
        }
        let k = id as usize;
        let accepted = match &self.inboxes[k].filter {
            Some(f) => event_matches_filter(e.source.as_str(), &e.event_type, e.priority, f),
            None => true,
        };
        if !accepted {
            return false;
        }
        if self.inboxes[k].events.len() >= INBOX_CAPACITY {
            return true;
        }
        let ghost b = self.inbox_views();
        let mut inbox = self.inboxes.remove(k);
        inbox.events.push(e.duplicate());
        self.inboxes.insert(k, inbox);
        assert(self.inbox_views() =~= b.update(k as int, (b[k as int].0, b[k as int].1.push(*e))));
        false
    }

    /// The subscriptions routed for events named `name`, in order.
    fn routed_ids(&self, name: &str) -> (ids: Vec<u64>)
        requires
            self.wf(),
        ensures
            ids@ == routed_to(self.routing(), name@),
    {
        let ghost rt = self.routing();
        let mut j: usize = 0;
        while j < self.routes.len()
            invariant
                j <= self.routes@.len(),
                rt == self.routing(),
                names_distinct(rt),
                rt.len() == self.routes@.len(),
                forall|q: int| 0 <= q < j ==> (#[trigger] rt[q]).0 != name@,
            decreases self.routes@.len() - j,
        {
            assert(rt[j as int] == (self.routes@[j as int].name@, self.routes@[j as int].subscribers@));
            if crate::text::str_eq(self.routes[j].name.as_str(), name) {
                let src = &self.routes[j].subscribers;
                let mut ids: Vec<u64> = Vec::new();
                let mut q: usize = 0;
                while q < src.len()
                    invariant
                        q <= src@.len(),
                        ids@ == src@.take(q as int),
                    decreases src@.len() - q,
                {
                    ids.push(src[q]);
                    assert(src@.take(q + 1) =~= src@.take(q as int).push(src@[q as int]));
                    q = q + 1;
                }
                assert(src@.take(src@.len() as int) =~= src@);
                proof {
                    let c = choose|c: int| 0 <= c < rt.len() && (#[trigger] rt[c]).0 == name@;
                    assert(c == j);
                }
                return ids;
            }
            j = j + 1;
        }
        Vec::new()
    }

    /// Hands the oldest queued event to the subscriptions routed for its
    /// kind, in order (see `deliver`), and counts it as processed and the
    /// full inboxes as failures; `false`, with nothing changed, when the
    /// queue is empty.
    pub fn process_next_event(&mut self) -> (processed: bool)
        requires
            old(self).wf(),
        ensures
            final(self).wf(),
            final(self).started() == old(self).started(),
            final(self).routing() == old(self).routing(),
            processed == (old(self).queued().len() > 0),
            !processed ==> final(self).queued() == old(self).queued() && final(self).inbox_views() == old(self).inbox_views()
                && final(self).counts() == old(self).counts(),
            processed ==> ({
                let e = old(self).queued()[0];
                let d = deliver(old(self).inbox_views(), routed_to(old(self).routing(), e.event_type.spec_name()), e);
                &&& final(self).queued() == old(self).queued().drop_first()
                &&& final(self).inbox_views() == d.0
                &&& final(self).counts() == (EventStats {
                    events_processed: add_capped(old(self).counts().events_processed, 1),
                    events_failed: add_capped(old(self).counts().events_failed, d.1 as int),
                    ..old(self).counts()
                })
            }),
    {
        if self.queue.len() == 0 {
            return false;
        }
        let event = self.queue.remove(0);
        let name = event.event_type.name();
        let ids = self.routed_ids(name.as_str());
        let ghost b0 = self.inbox_views();
        let mut failed: u64 = 0;
        let mut k: usize = 0;
        while k < ids.len()
            invariant
                k <= ids@.len(),
                deliver(b0, ids@.take(k as int), event) == (self.inbox_views(), failed as nat),
                failed <= k,
                self.routes@ == old(self).routes@,
                self.running == old(self).running,
                self.stats == old(self).stats,
                self.queue@ == old(self).queue@.drop_first(),
            decreases ids@.len() - k,
        {
            assert(ids@.take(k + 1).drop_last() =~= ids@.take(k as int));
            let full = self.deliver_to(ids[k], &event);
            if full {
                failed = failed + 1;
            }
            k = k + 1;
        }
        assert(ids@.take(ids@.len() as int) =~= ids@);
        self.stats.events_processed = self.stats.events_processed.saturating_add(1);
        self.stats.events_failed = self.stats.events_failed.saturating_add(failed);
        true
    }
}

/// Builds an event stamped `timestamp` with the identifier `id` and
/// publishes it on `system`.
pub fn publish_event(
    system: &mut EventSystem,
    id: u128,
    timestamp: u64,
    event_type: LunaEventType,
    source: &str,
    priority: EventPriority,
    data: String,
) -> (r: Result<(), LunaError>)
    ensures
        final(system).started() == old(system).started(),
        final(system).routing() == old(system).routing(),
        final(system).inbox_views() == old(system).inbox_views(),
        old(system).started() != 0 && old(system).queued().len() < QUEUE_CAPACITY ==> {
            &&& r is Ok
            &&& final(system).queued().len() == old(system).queued().len() + 1
            &&& final(system).queued().drop_last() == old(system).queued()
            &&& final(system).queued().last().id == id
            &&& final(system).queued().last().timestamp == timestamp
            &&& final(system).queued().last().event_type == event_type
            &&& final(system).queued().last().source@ == source@
            &&& final(system).queued().last().priority == priority
            &&& final(system).queued().last().data == data
            &&& final(system).queued().last().correlation_id is None
        },
        !(old(system).started() != 0 && old(system).queued().len() < QUEUE_CAPACITY) ==> {
            &&& r matches Err(e) && events_error(e, "Event queue is full, event dropped"@)
            &&& final(system).queued() == old(system).queued()
        },
{
    let event = LunaEvent::new_at(id, timestamp, event_type, String::from_str(source), priority, data);
    let r = system.publish(event);
    proof {
        if old(system).started() != 0 && old(system).queued().len() < QUEUE_CAPACITY {
            assert(system.queued().drop_last() =~= old(system).queued());
        }
    }
    r
}

/// Handing out `e` keeps the number of inboxes and their filters and only
/// adds events at the end of an inbox; an inbox not among `ids` stays as it
/// was, and one among them that accepts `e` and has room gets `e` next.
proof fn lemma_deliver_extends(b: Seq<InboxView>, ids: Seq<u64>, e: LunaEvent, k: u64)
    requires
        (k as int) < b.len(),
    ensures
        deliver(b, ids, e).0.len() == b.len(),
        deliver(b, ids, e).0[k as int].0 == b[k as int].0,
        deliver(b, ids, e).0[k as int].1.len() >= b[k as int].1.len(),
        deliver(b, ids, e).0[k as int].1.take(b[k as int].1.len() as int) == b[k as int].1,
        !ids.contains(k) ==> deliver(b, ids, e).0[k as int] == b[k as int],
        ids.contains(k) && accepts(b[k as int].0, e) && b[k as int].1.len() < INBOX_CAPACITY ==> deliver(b, ids, e).0[k as int].1.len()
            > b[k as int].1.len() && deliver(b, ids, e).0[k as int].1[b[k as int].1.len() as int] == e,
    decreases ids.len(),
{
    let ki = k as int;
    if ids.len() == 0 {
        assert(b[ki].1.take(b[ki].1.len() as int) =~= b[ki].1);
    } else {
        let rest = ids.drop_last();
        lemma_deliver_extends(b, rest, e, k);
        let b1 = deliver(b, rest, e).0;
        let last = ids.last();
        assert(ids.contains(k) <==> (rest.contains(k) || last == k)) by {
            if ids.contains(k) {
                let q = choose|q: int| 0 <= q < ids.len() && ids[q] == k;
                if q < ids.len() - 1 {
                    assert(rest[q] == k);
                }
            }
            if rest.contains(k) {
                let q = choose|q: int| 0 <= q < rest.len() && rest[q] == k;
                assert(ids[q] == k);
            }
            if last == k {
                assert(ids[ids.len() - 1] == k);
            }
        }
        if last == k && accepts(b1[ki].0, e) && b1[ki].1.len() < INBOX_CAPACITY {
            let grown = b1[ki].1.push(e);
            assert(deliver(b, ids, e).0 == b1.update(ki, (b1[ki].0, grown)));
            assert(grown.take(b[ki].1.len() as int) =~= b1[ki].1.take(b[ki].1.len() as int));
        }
    }
}

/// Adding a route keeps the names distinct.
proof fn lemma_add_route_distinct(r: Routes, n: Seq<char>, id: u64)
    requires
        names_distinct(r),
    ensures
        names_distinct(add_route(r, n, id)),
{
    let r2 = add_route(r, n, id);
    if exists|j: int| 0 <= j < r.len() && (#[trigger] r[j]).0 == n {
        let j = choose|j: int| 0 <= j < r.len() && (#[trigger] r[j]).0 == n;
        assert forall|a: int, c: int| 0 <= a < c < r2.len() implies (#[trigger] r2[a]).0 != (#[trigger] r2[c]).0 by {
            assert(r2[a].0 == r[a].0);
            assert(r2[c].0 == r[c].0);
        }
    } else {
        assert forall|a: int, c: int| 0 <= a < c < r2.len() implies (#[trigger] r2[a]).0 != (#[trigger] r2[c]).0 by {
            if c == r.len() {
                assert(r2[a].0 == r[a].0);
            } else {
                assert(r2[a].0 == r[a].0);
                assert(r2[c].0 == r[c].0);
            }
        }
    }
}

/// Adding routes keeps the names distinct.
proof fn lemma_add_routes_distinct(r: Routes, kinds: Seq<LunaEventType>, id: u64)
    requires
        names_distinct(r),
    ensures
        names_distinct(add_routes(r, kinds, id)),
    decreases kinds.len(),
{
    if kinds.len() > 0 {
        lemma_add_routes_distinct(r, kinds.drop_last(), id);
        lemma_add_route_distinct(add_routes(r, kinds.drop_last(), id), kinds.last().spec_name(), id);
    }
}

/// After adding `id` for the name `n`, events named `n` are routed to
/// `id`, and a subscription routed for `name` before still is.
proof fn lemma_add_route_routes_to(r: Routes, n: Seq<char>, id: u64, name: Seq<char>, other: u64)
    requires
        names_distinct(r),
    ensures
        n == name ==> routed_to(add_route(r, n, id), name).contains(id),
        routed_to(r, name).contains(other) ==> routed_to(add_route(r, n, id), name).contains(other),
{
    let r2 = add_route(r, n, id);
    lemma_add_route_distinct(r, n, id);
    if exists|j: int| 0 <= j < r.len() && (#[trigger] r[j]).0 == n {
        let j = choose|j: int| 0 <= j < r.len() && (#[trigger] r[j]).0 == n;
        assert(r2 == r.update(j, (n, r[j].1.push(id))));
        if n == name {
            assert(r2[j].0 == name);
            let c = choose|c: int| 0 <= c < r2.len() && (#[trigger] r2[c]).0 == name;
            assert(c == j);
            assert(r2[j].1[r[j].1.len() as int] == id);
            assert(routed_to(r2, name) == r[j].1.push(id));
            if routed_to(r, name).contains(other) {
                let c1 = choose|c: int| 0 <= c < r.len() && (#[trigger] r[c]).0 == name;
                assert(c1 == j);
                let q = choose|q: int| 0 <= q < r[j].1.len() && r[j].1[q] == other;
                assert(r[j].1.push(id)[q] == other);
            }
        } else if routed_to(r, name).contains(other) {
            let c1 = choose|c: int| 0 <= c < r.len() && (#[trigger] r[c]).0 == name;
            assert(r2[c1].0 == name);
            let c = choose|c: int| 0 <= c < r2.len() && (#[trigger] r2[c]).0 == name;
            assert(c == c1);
        }
    } else {
        assert(r2 == r.push((n, seq![id])));
        if n == name {
            assert(r2[r.len() as int].0 == name);
            let c = choose|c: int| 0 <= c < r2.len() && (#[trigger] r2[c]).0 == name;
            assert(c == r.len());
            assert(r2[c].1[0] == id);
        } else if routed_to(r, name).contains(other) {
            let c1 = choose|c: int| 0 <= c < r.len() && (#[trigger] r[c]).0 == name;
            assert(r2[c1].0 == name);
            let c = choose|c: int| 0 <= c < r2.len() && (#[trigger] r2[c]).0 == name;
            assert(c == c1);
        }
    }
}

/// After routing `id` for `kinds`, events named like one of them are
/// routed to `id`.
proof fn lemma_add_routes_routes_to(r: Routes, kinds: Seq<LunaEventType>, id: u64, name: Seq<char>)
    requires
        names_distinct(r),
        exists|i: int| 0 <= i < kinds.len() && (#[trigger] kinds[i]).spec_name() == name,
    ensures
        routed_to(add_routes(r, kinds, id), name).contains(id),
    decreases kinds.len(),
{
    let rest = kinds.drop_last();
    lemma_add_routes_distinct(r, rest, id);
    let r1 = add_routes(r, rest, id);
    if kinds.last().spec_name() == name {
        lemma_add_route_routes_to(r1, name, id, name, id);
    } else {
        let i = choose|i: int| 0 <= i < kinds.len() && (#[trigger] kinds[i]).spec_name() == name;
        assert(rest[i] == kinds[i]);
        lemma_add_routes_routes_to(r, rest, id, name);
        lemma_add_route_routes_to(r1, kinds.last().spec_name(), id, name, id);
    }
}

/// A subscription made with `filter` on a system whose routing is
/// `routes` and whose inboxes are `inboxes` gets each event of a kind it is
/// routed for that its filter accepts: once the event is handed out, it is
/// the first event in the subscription's inbox.
pub proof fn lemma_subscriber_receives(
    routes: Routes,
    inboxes: Seq<InboxView>,
    filter: Option<EventFilter>,
    e: LunaEvent,
)
    requires
        names_distinct(routes),
        inboxes.len() < u64::MAX,
        exists|i: int|
            0 <= i < routed_kinds(filter).len() && (#[trigger] routed_kinds(filter)[i]).spec_name()
                == e.event_type.spec_name(),
        accepts(filter, e),
    ensures
        ({
            let id = inboxes.len() as u64;
            let routed = add_routes(routes, routed_kinds(filter), id);
            let boxes = inboxes.push((filter, Seq::<LunaEvent>::empty()));
            let d = deliver(boxes, routed_to(routed, e.event_type.spec_name()), e);
            d.0[id as int].1.len() >= 1 && d.0[id as int].1[0] == e
        }),
{
    let id = inboxes.len() as u64;
    let routed = add_routes(routes, routed_kinds(filter), id);
    let boxes = inboxes.push((filter, Seq::<LunaEvent>::empty()));
    lemma_add_routes_routes_to(routes, routed_kinds(filter), id, e.event_type.spec_name());
    lemma_deliver_extends(boxes, routed_to(routed, e.event_type.spec_name()), e, id);
}

/// No entry of `without_subscriber(routes, id)` holds `id`.
proof fn lemma_without_subscriber(routes: Routes, id: u64)
    ensures
        forall|j: int| 0 <= j < without_subscriber(routes, id).len() ==> !(#[trigger] without_subscriber(routes, id)[j]).1.contains(id),
    decreases routes.len(),
{
    if routes.len() > 0 {
        lemma_without_subscriber(routes.drop_last(), id);
        lemma_without_id(routes.last().1, id);
        let rest = without_subscriber(routes.drop_last(), id);
        let w = without_subscriber(routes, id);
        assert forall|j: int| 0 <= j < w.len() implies !(#[trigger] w[j]).1.contains(id) by {
            if j < rest.len() {
                assert(w[j] == rest[j]);
            }
        }
    }
}

/// `without_id(ids, id)` does not hold `id`.
proof fn lemma_without_id(ids: Seq<u64>, id: u64)
    ensures
        !without_id(ids, id).contains(id),
    decreases ids.len(),
{
    if ids.len() > 0 {
        lemma_without_id(ids.drop_last(), id);
        let w = without_id(ids.drop_last(), id);
        if ids.last() != id {
            assert forall|q: int| 0 <= q < w.push(ids.last()).len() implies w.push(ids.last())[q] != id by {
                if q < w.len() {
                    assert(w.push(ids.last())[q] == w[q]);
                }
            }
        }
    }
}

/// Once the subscription numbered `id` is unsubscribed, handing out any
/// event leaves its inbox as it was.
pub proof fn lemma_unsubscribed_receives_nothing(routes: Routes, inboxes: Seq<InboxView>, id: u64, e: LunaEvent)
    requires
        (id as int) < inboxes.len(),
    ensures
        deliver(inboxes, routed_to(without_subscriber(routes, id), e.event_type.spec_name()), e).0[id as int]
            == inboxes[id as int],
{
    let w = without_subscriber(routes, id);
    lemma_without_subscriber(routes, id);
    let ids = routed_to(w, e.event_type.spec_name());
    if exists|j: int| 0 <= j < w.len() && (#[trigger] w[j]).0 == e.event_type.spec_name() {
        let j = choose|j: int| 0 <= j < w.len() && (#[trigger] w[j]).0 == e.event_type.spec_name();
        assert(!w[j].1.contains(id));
    }
    lemma_deliver_extends(inboxes, ids, e, id);
}

} // verus!
