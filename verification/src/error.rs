//! The error type of the assistant: what went wrong, in which component,
//! whether it can be recovered from, and what the user should do.

use vstd::prelude::*;
use vstd::string::StringExecFns;

verus! {

/// How an input reached the assistant.
#[derive(Clone, Copy, PartialEq, Eq, Debug)]
pub enum InputType {
    Voice,
    Text,
    Hotkey,
    Mouse,
    Keyboard,
}

/// How dangerous a blocked action was, from least to most.
#[derive(Clone, Copy, PartialEq, Eq, PartialOrd, Ord, Debug)]
pub enum RiskLevel {
    Low,
    Medium,
    High,
    Critical,
}

impl InputType {
    pub open spec fn spec_name(self) -> Seq<char> {
        match self {
            InputType::Voice => "voice"@,
            InputType::Text => "text"@,
            InputType::Hotkey => "hotkey"@,
            InputType::Mouse => "mouse"@,
            InputType::Keyboard => "keyboard"@,
        }
    }

    /// The lower-case name the type is shown by.
    pub fn name(&self) -> (s: &'static str)
        ensures
            s@ == self.spec_name(),
    {
        match self {
            InputType::Voice => "voice",
            InputType::Text => "text",
            InputType::Hotkey => "hotkey",
            InputType::Mouse => "mouse",
            InputType::Keyboard => "keyboard",
        }
    }
}

impl RiskLevel {
    /// Position in the order Low < Medium < High < Critical.
    pub open spec fn spec_rank(self) -> int {
        match self {
            RiskLevel::Low => 0,
            RiskLevel::Medium => 1,
            RiskLevel::High => 2,
            RiskLevel::Critical => 3,
        }
    }

    pub fn rank(&self) -> (r: u8)
        ensures
            r == self.spec_rank(),
    {
        match self {
            RiskLevel::Low => 0,
            RiskLevel::Medium => 1,
            RiskLevel::High => 2,
            RiskLevel::Critical => 3,
        }
    }

    /// `self` is strictly less risky than `other`.
    pub fn is_below(&self, other: &RiskLevel) -> (b: bool)
        ensures
            b == (self.spec_rank() < other.spec_rank()),
    {
        self.rank() < other.rank()
    }

    pub open spec fn spec_name(self) -> Seq<char> {
        match self {
            RiskLevel::Low => "low"@,
            RiskLevel::Medium => "medium"@,
            RiskLevel::High => "high"@,
            RiskLevel::Critical => "critical"@,
        }
    }

    /// The lower-case name the level is shown by.
    pub fn name(&self) -> (s: &'static str)
        ensures
            s@ == self.spec_name(),
    {
        match self {
            RiskLevel::Low => "low",
            RiskLevel::Medium => "medium",
            RiskLevel::High => "high",
            RiskLevel::Critical => "critical",
        }
    }
}

/// The risk levels form a total order: ranks are distinct and every level
/// sits below `Critical` except `Critical` itself.
pub proof fn lemma_risk_order(a: RiskLevel, b: RiskLevel)
    ensures
        a.spec_rank() == b.spec_rank() <==> a == b,
        a.spec_rank() < RiskLevel::Critical.spec_rank() <==> a != RiskLevel::Critical,
        0 <= a.spec_rank() <= 3,
{
}

/// What went wrong, by component.
#[derive(Debug)]
pub enum LunaError {
    AiModel { message: String, model_name: String, recovery_suggestion: String },
    Vision { message: String, component: String, is_recoverable: bool },
    Input { message: String, input_type: InputType },
    Overlay { message: String, context: String },
    Memory { message: String, current_usage: u64, limit: u64 },
    Config { message: String, config_key: Option<String> },
    WindowsApi { message: String, error_code: u32, api_name: String },
    Io { message: String, path: Option<String> },
    Network { message: String, endpoint: Option<String> },
    Safety { message: String, risk_level: RiskLevel, user_override_allowed: bool },
    Internal { message: String, component: String },
}

/// An owned copy of `s`.
fn owned(s: &str) -> (r: String)
    ensures
        r@ == s@,
{
    String::from_str(s)
}

fn owned_opt(s: Option<&str>) -> (r: Option<String>)
    ensures
        r is Some <==> s is Some,
        s is Some ==> r.unwrap()@ == s.unwrap()@,
{
    match s {
        Some(v) => Some(owned(v)),
        None => None,
    }
}

/// `a` followed by `b`.
fn joined(a: &str, b: &str) -> (r: String)
    ensures
        r@ == a@ + b@,
{
    let mut r = String::from_str(a);
    r.append(b);
    r
}

impl LunaError {
    pub fn ai_model(message: &str, model_name: &str, recovery_suggestion: &str) -> (e: Self)
        ensures
            e matches LunaError::AiModel { message: m, model_name: n, recovery_suggestion: r }
                && m@ == message@ && n@ == model_name@ && r@ == recovery_suggestion@,
    {
        LunaError::AiModel {
            message: owned(message),
            model_name: owned(model_name),
            recovery_suggestion: owned(recovery_suggestion),
        }
    }

    pub fn vision(message: &str, component: &str, is_recoverable: bool) -> (e: Self)
        ensures
            e matches LunaError::Vision { message: m, component: c, is_recoverable: r } && m@
                == message@ && c@ == component@ && r == is_recoverable,
    {
        LunaError::Vision { message: owned(message), component: owned(component), is_recoverable }
    }

    pub fn input(message: &str, input_type: InputType) -> (e: Self)
        ensures
            e matches LunaError::Input { message: m, input_type: t } && m@ == message@ && t
                == input_type,
    {
        LunaError::Input { message: owned(message), input_type }
    }

    pub fn overlay(message: &str, context: &str) -> (e: Self)
        ensures
            e matches LunaError::Overlay { message: m, context: c } && m@ == message@ && c@
                == context@,
    {
        LunaError::Overlay { message: owned(message), context: owned(context) }
    }

    pub fn memory(message: &str, current_usage: u64, limit: u64) -> (e: Self)
        ensures
            e matches LunaError::Memory { message: m, current_usage: u, limit: l } && m@
                == message@ && u == current_usage && l == limit,
    {
        LunaError::Memory { message: owned(message), current_usage, limit }
    }

    pub fn config(message: &str, config_key: Option<&str>) -> (e: Self)
        ensures
            e matches LunaError::Config { message: m, config_key: k } && m@ == message@ && (k is Some
                <==> config_key is Some) && (config_key is Some ==> k.unwrap()@
                == config_key.unwrap()@),
    {
        LunaError::Config { message: owned(message), config_key: owned_opt(config_key) }
    }

    pub fn windows_api(message: &str, error_code: u32, api_name: &str) -> (e: Self)
        ensures
            e matches LunaError::WindowsApi { message: m, error_code: c, api_name: n } && m@
                == message@ && c == error_code && n@ == api_name@,
    {
        LunaError::WindowsApi { message: owned(message), error_code, api_name: owned(api_name) }
    }

    pub fn io(message: &str, path: Option<&str>) -> (e: Self)
        ensures
            e matches LunaError::Io { message: m, path: p } && m@ == message@ && (p is Some
                <==> path is Some) && (path is Some ==> p.unwrap()@ == path.unwrap()@),
    {
        LunaError::Io { message: owned(message), path: owned_opt(path) }
    }

    pub fn safety(message: &str, risk_level: RiskLevel, user_override_allowed: bool) -> (e: Self)
        ensures
            e matches LunaError::Safety { message: m, risk_level: r, user_override_allowed: u }
                && m@ == message@ && r == risk_level && u == user_override_allowed,
    {
        LunaError::Safety { message: owned(message), risk_level, user_override_allowed }
    }

    pub fn internal(message: &str, component: &str) -> (e: Self)
        ensures
            e matches LunaError::Internal { message: m, component: c } && m@ == message@ && c@
                == component@,
    {
        LunaError::Internal { message: owned(message), component: owned(component) }
    }

    /// Whether the assistant can carry on after this error.
    pub open spec fn spec_is_recoverable(&self) -> bool {
        match self {
            LunaError::Vision { is_recoverable, .. } => *is_recoverable,
            LunaError::Memory { .. } => false,
            LunaError::Safety { risk_level, .. } => risk_level.spec_rank()
                < RiskLevel::Critical.spec_rank(),
            LunaError::WindowsApi { .. } => false,
            LunaError::AiModel { .. } => true,
            LunaError::Input { .. } => true,
            LunaError::Overlay { .. } => true,
            LunaError::Config { .. } => true,
            LunaError::Io { .. } => true,
            LunaError::Network { .. } => true,
            LunaError::Internal { .. } => false,
        }
    }

    pub fn is_recoverable(&self) -> (b: bool)
        ensures
            b == self.spec_is_recoverable(),
    {
        match self {
            LunaError::Vision { is_recoverable, .. } => *is_recoverable,
            LunaError::Memory { .. } => false,
            LunaError::Safety { risk_level, .. } => risk_level.is_below(&RiskLevel::Critical),
            LunaError::WindowsApi { .. } => false,
            LunaError::AiModel { .. } => true,
            LunaError::Input { .. } => true,
            LunaError::Overlay { .. } => true,
            LunaError::Config { .. } => true,
            LunaError::Io { .. } => true,
            LunaError::Network { .. } => true,
            LunaError::Internal { .. } => false,
        }
    }

    /// The advice shown to the user for this error.
    pub open spec fn spec_recovery_suggestion(&self) -> Seq<char> {
        match self {
            LunaError::AiModel { recovery_suggestion, .. } => recovery_suggestion@,
            LunaError::Vision { component, is_recoverable, .. } => if *is_recoverable {
                "Try restarting the "@ + component@ + " component"@
            } else {
                "Restart Luna application"@
            },
            LunaError::Input { input_type, .. } => match input_type {
                InputType::Voice => "Check microphone connection and permissions"@,
                InputType::Hotkey => "Check for conflicting hotkey assignments"@,
                _ => "Retry the operation"@,
            },
            LunaError::Memory { .. } => "Close other applications to free memory, then restart Luna"@,
            LunaError::Safety { user_override_allowed, .. } => if *user_override_allowed {
                "Review the action and manually confirm if safe"@
            } else {
                "This action cannot be performed for safety reasons"@
            },
            _ => "Try restarting Luna or contact support if the problem persists"@,
        }
    }

    pub fn recovery_suggestion(&self) -> (s: String)
        ensures
            s@ == self.spec_recovery_suggestion(),
    {
        match self {
            LunaError::AiModel { recovery_suggestion, .. } => owned(recovery_suggestion.as_str()),
            LunaError::Vision { component, is_recoverable, .. } => {
                if *is_recoverable {
                    let mut s = joined("Try restarting the ", component.as_str());
                    s.append(" component");
                    s
                } else {
                    owned("Restart Luna application")
                }
            },
            LunaError::Input { input_type, .. } => match input_type {
                InputType::Voice => owned("Check microphone connection and permissions"),
                InputType::Hotkey => owned("Check for conflicting hotkey assignments"),
                _ => owned("Retry the operation"),
            },
            LunaError::Memory { .. } => owned(
                "Close other applications to free memory, then restart Luna",
            ),
            LunaError::Safety { user_override_allowed, .. } => {
                if *user_override_allowed {
                    owned("Review the action and manually confirm if safe")
                } else {
                    owned("This action cannot be performed for safety reasons")
                }
            },
            _ => owned("Try restarting Luna or contact support if the problem persists"),
        }
    }

    /// The component the error is attributed to.
    pub open spec fn spec_component(&self) -> Seq<char> {
        match self {
            LunaError::AiModel { model_name, .. } => model_name@,
            LunaError::Vision { component, .. } => component@,
            LunaError::Input { .. } => "input"@,
            LunaError::Overlay { .. } => "overlay"@,
            LunaError::Memory { .. } => "memory"@,
            LunaError::Config { .. } => "config"@,
            LunaError::WindowsApi { api_name, .. } => api_name@,
            LunaError::Io { .. } => "io"@,
            LunaError::Network { .. } => "network"@,
            LunaError::Safety { .. } => "safety"@,
            LunaError::Internal { component, .. } => component@,
        }
    }

    pub fn component(&self) -> (s: &str)
        ensures
            s@ == self.spec_component(),
    {
        match self {
            LunaError::AiModel { model_name, .. } => model_name.as_str(),
            LunaError::Vision { component, .. } => component.as_str(),
            LunaError::Input { .. } => "input",
            LunaError::Overlay { .. } => "overlay",
            LunaError::Memory { .. } => "memory",
            LunaError::Config { .. } => "config",
            LunaError::WindowsApi { api_name, .. } => api_name.as_str(),
            LunaError::Io { .. } => "io",
            LunaError::Network { .. } => "network",
            LunaError::Safety { .. } => "safety",
            LunaError::Internal { component, .. } => component.as_str(),
        }
    }

    pub open spec fn spec_message(&self) -> Seq<char> {
        match self {
            LunaError::AiModel { message, .. } => message@,
            LunaError::Vision { message, .. } => message@,
            LunaError::Input { message, .. } => message@,
            LunaError::Overlay { message, .. } => message@,
            LunaError::Memory { message, .. } => message@,
            LunaError::Config { message, .. } => message@,
            LunaError::WindowsApi { message, .. } => message@,
            LunaError::Io { message, .. } => message@,
            LunaError::Network { message, .. } => message@,
            LunaError::Safety { message, .. } => message@,
            LunaError::Internal { message, .. } => message@,
        }
    }

    /// The text the error is shown with: a prefix naming the kind of
    /// failure, then the message (and, for Windows API errors, the code).
    pub open spec fn spec_display(&self) -> Seq<char> {
        match self {
            LunaError::AiModel { message, .. } => "AI model error: "@ + message@,
            LunaError::Vision { message, .. } => "Vision system error: "@ + message@,
            LunaError::Input { message, .. } => "Input processing error: "@ + message@,
            LunaError::Overlay { message, .. } => "Overlay system error: "@ + message@,
            LunaError::Memory { message, .. } => "Memory error: "@ + message@,
            LunaError::Config { message, .. } => "Configuration error: "@ + message@,
            LunaError::WindowsApi { message, error_code, .. } => "Windows API error: "@ + message@
                + " (Code: "@ + crate::text::decimal(*error_code as nat) + ")"@,
            LunaError::Io { message, .. } => "I/O error: "@ + message@,
            LunaError::Network { message, .. } => "Network error: "@ + message@,
            LunaError::Safety { message, .. } => "Safety check failed: "@ + message@,
            LunaError::Internal { message, .. } => "Internal error: "@ + message@,
        }
    }

    /// The error as text.
    pub fn display_string(&self) -> (s: String)
        ensures
            s@ == self.spec_display(),
    {
        match self {
            LunaError::AiModel { message, .. } => joined("AI model error: ", message.as_str()),
            LunaError::Vision { message, .. } => joined("Vision system error: ", message.as_str()),
            LunaError::Input { message, .. } => joined("Input processing error: ", message.as_str()),
            LunaError::Overlay { message, .. } => joined("Overlay system error: ", message.as_str()),
            LunaError::Memory { message, .. } => joined("Memory error: ", message.as_str()),
            LunaError::Config { message, .. } => joined("Configuration error: ", message.as_str()),
            LunaError::WindowsApi { message, error_code, .. } => {
                let mut s = joined("Windows API error: ", message.as_str());
                s.append(" (Code: ");
                let code = crate::text::u64_to_decimal(*error_code as u64);
                s.append(code.as_str());
                s.append(")");
                s
            },
            LunaError::Io { message, .. } => joined("I/O error: ", message.as_str()),
            LunaError::Network { message, .. } => joined("Network error: ", message.as_str()),
            LunaError::Safety { message, .. } => joined("Safety check failed: ", message.as_str()),
            LunaError::Internal { message, .. } => joined("Internal error: ", message.as_str()),
        }
    }
}

/// A memory error is never recoverable and always advises freeing memory;
/// a safety error is recoverable exactly when its risk is below critical.
pub proof fn lemma_recovery_consistency(e: LunaError)
    ensures
        e is Memory ==> !e.spec_is_recoverable() && e.spec_recovery_suggestion()
            == "Close other applications to free memory, then restart Luna"@,
        e matches LunaError::Safety { risk_level, .. } ==> (e.spec_is_recoverable() <==> risk_level
            != RiskLevel::Critical),
        e matches LunaError::Vision { is_recoverable, .. } ==> e.spec_is_recoverable()
            == is_recoverable,
{
}

} // verus!
