//! Flat error kinds and the context that operations add to them.

use vstd::prelude::*;
use vstd::string::StringExecFns;

verus! {

/// What went wrong, by kind, with a message.
#[derive(Debug)]
pub enum LunaError {
    Config(String),
    UnsafeCommand(String),
    UnsafeAction(String),
    Vision(String),
    Input(String),
    ScreenCapture(String),
    AI(String),
    System(String),
    InvalidArgument(String),
    Timeout(String),
    NotFound(String),
    PermissionDenied(String),
}

impl LunaError {
    /// The message the error carries.
    pub open spec fn spec_detail(&self) -> Seq<char> {
        match self {
            LunaError::Config(m) => m@,
            LunaError::UnsafeCommand(m) => m@,
            LunaError::UnsafeAction(m) => m@,
            LunaError::Vision(m) => m@,
            LunaError::Input(m) => m@,
            LunaError::ScreenCapture(m) => m@,
            LunaError::AI(m) => m@,
            LunaError::System(m) => m@,
            LunaError::InvalidArgument(m) => m@,
            LunaError::Timeout(m) => m@,
            LunaError::NotFound(m) => m@,
            LunaError::PermissionDenied(m) => m@,
        }
    }

    /// The text in front of the message when the error is shown.
    pub open spec fn spec_prefix(&self) -> Seq<char> {
        match self {
            LunaError::Config(_) => "Configuration error: "@,
            LunaError::UnsafeCommand(_) => "Unsafe command blocked: "@,
            LunaError::UnsafeAction(_) => "Unsafe action blocked: "@,
            LunaError::Vision(_) => "Vision processing error: "@,
            LunaError::Input(_) => "Input system error: "@,
            LunaError::ScreenCapture(_) => "Screen capture error: "@,
            LunaError::AI(_) => "AI processing error: "@,
            LunaError::System(_) => "System error: "@,
            LunaError::InvalidArgument(_) => "Invalid argument: "@,
            LunaError::Timeout(_) => "Operation timeout: "@,
            LunaError::NotFound(_) => "Resource not found: "@,
            LunaError::PermissionDenied(_) => "Permission denied: "@,
        }
    }

    /// The text the error is shown with.
    pub open spec fn spec_display(&self) -> Seq<char> {
        self.spec_prefix() + self.spec_detail()
    }

    /// The text the error is shown with.
    pub fn display_string(&self) -> (s: String)
        ensures
            s@ == self.spec_display(),
    {
        let (prefix, m) = match self {
            LunaError::Config(m) => ("Configuration error: ", m),
            LunaError::UnsafeCommand(m) => ("Unsafe command blocked: ", m),
            LunaError::UnsafeAction(m) => ("Unsafe action blocked: ", m),
            LunaError::Vision(m) => ("Vision processing error: ", m),
            LunaError::Input(m) => ("Input system error: ", m),
            LunaError::ScreenCapture(m) => ("Screen capture error: ", m),
            LunaError::AI(m) => ("AI processing error: ", m),
            LunaError::System(m) => ("System error: ", m),
            LunaError::InvalidArgument(m) => ("Invalid argument: ", m),
            LunaError::Timeout(m) => ("Operation timeout: ", m),
            LunaError::NotFound(m) => ("Resource not found: ", m),
            LunaError::PermissionDenied(m) => ("Permission denied: ", m),
        };
        let mut s = String::from_str(prefix);
        s.append(m.as_str());
        s
    }
}

/// The operation an error happened in, with optional details.
#[derive(Debug, Clone)]
pub struct ErrorContext {
    pub operation: String,
    pub details: Option<String>,
    /// Seconds since the Unix epoch when the context was made.
    pub timestamp: u64,
}

impl ErrorContext {
    /// A context for `operation`, stamped now by the system clock.
    pub fn new(operation: &str) -> (c: Self)
        ensures
            c.operation@ == operation@,
            c.details is None,
    {
        ErrorContext {
            operation: String::from_str(operation),
            details: None,
            timestamp: crate::util::clock_millis() / 1000,
        }
    }

    /// A context for `operation` stamped `timestamp`.
    pub fn new_at(operation: &str, timestamp: u64) -> (c: Self)
        ensures
            c.operation@ == operation@,
            c.details is None,
            c.timestamp == timestamp,
    {
        ErrorContext { operation: String::from_str(operation), details: None, timestamp }
    }

    /// The same context with `details`.
    pub fn with_details(self, details: &str) -> (c: Self)
        ensures
            c.operation@ == self.operation@,
            c.details matches Some(d) && d@ == details@,
            c.timestamp == self.timestamp,
    {
        ErrorContext { details: Some(String::from_str(details)), ..self }
    }
}

/// The message of `base` seen through `context`:
/// `"<operation>: <error>"`, with `" (<details>)"` when there are details.
pub open spec fn context_message(base: &LunaError, context: &ErrorContext) -> Seq<char> {
    match context.details {
        Some(d) => context.operation@ + ": "@ + base.spec_display() + " ("@ + d@ + ")"@,
        None => context.operation@ + ": "@ + base.spec_display(),
    }
}

/// `base` re-raised inside `context`: configuration, vision, input, capture
/// and AI errors keep their kind, every other becomes a system error; the
/// message is `context_message`.
pub fn add_context(base: LunaError, context: ErrorContext) -> (e: LunaError)
    ensures
        e.spec_detail() == context_message(&base, &context),
        (base is Config) ==> (e is Config),
        (base is Vision) ==> (e is Vision),
        (base is Input) ==> (e is Input),
        (base is ScreenCapture) ==> (e is ScreenCapture),
        (base is AI) ==> (e is AI),
        !(base is Config || base is Vision || base is Input || base is ScreenCapture || base is AI)
            ==> (e is System),
{
    let mut msg = String::from_str(context.operation.as_str());
    msg.append(": ");
    let shown = base.display_string();
    msg.append(shown.as_str());
    match &context.details {
        Some(d) => {
            msg.append(" (");
            msg.append(d.as_str());
            msg.append(")");
        },
        None => {},
    }
    match base {
        LunaError::Config(_) => LunaError::Config(msg),
        LunaError::Vision(_) => LunaError::Vision(msg),
        LunaError::Input(_) => LunaError::Input(msg),
        LunaError::ScreenCapture(_) => LunaError::ScreenCapture(msg),
        LunaError::AI(_) => LunaError::AI(msg),
        _ => LunaError::System(msg),
    }
}

/// Adding the context of an operation to the error of a result.
pub trait ErrorExt<T>: Sized {
    /// The result with its error, if any, seen through `context`.
    fn with_context(self, context: ErrorContext) -> Result<T, LunaError>;

    /// The result with its error, if any, seen through the operation
    /// `operation`.
    fn with_operation(self, operation: &str) -> Result<T, LunaError>;
}

impl<T> ErrorExt<T> for Result<T, LunaError> {
    fn with_context(self, context: ErrorContext) -> (r: Result<T, LunaError>)
        ensures
            self is Ok ==> r == self,
            self matches Err(e) ==> (r matches Err(e2) && e2.spec_detail() == context_message(&e, &context)),
    {
        match self {
            Ok(v) => Ok(v),
            Err(e) => Err(add_context(e, context)),
        }
    }

    fn with_operation(self, operation: &str) -> (r: Result<T, LunaError>)
        ensures
            self is Ok ==> r == self,
            self is Err ==> r is Err,
    {
        match self {
            Ok(v) => Ok(v),
            Err(e) => Err(add_context(e, ErrorContext::new(operation))),
        }
    }
}

} // verus!
