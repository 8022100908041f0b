//! The safety gate: refuses destructive commands and out-of-range actions
//! before anything is carried out.

use vstd::prelude::*;
use vstd::string::StringExecFns;
use crate::text::{contains_text, lowercase, str_contains, to_lowercase};

verus! {

/// The regex set type of the `regex` crate.
#[verifier::external_type_specification]
#[verifier::external_body]
pub struct ExRegexSet(regex::RegexSet);

/// The patterns a compiled regex set was built from, in order
/// (`RegexSet::patterns`).
pub uninterp spec fn regex_set_patterns(set: regex::RegexSet) -> Seq<Seq<char>>;

/// Whether `RegexSet::new` builds a set from `patterns`: every one is a
/// valid regular expression and the set stays within the crate's size
/// limits.
pub uninterp spec fn regex_set_compiles(patterns: Seq<Seq<char>>) -> bool;

/// Whether some regular expression of `patterns` matches somewhere in
/// `text` (`RegexSet::is_match` on a set that `RegexSet::new` built from
/// `patterns`, with the default options).
pub uninterp spec fn regex_set_matches(patterns: Seq<Seq<char>>, text: Seq<char>) -> bool;

/// `RegexSet::new`: a set exactly when every pattern compiles, holding the
/// patterns in the order given.
#[verifier::external_body]
fn compile_regex_set(patterns: &Vec<String>) -> (r: Option<regex::RegexSet>)
    ensures
        r is Some <==> regex_set_compiles(patterns@.map_values(|p: String| p@)),
        r matches Some(set) ==> regex_set_patterns(set) == patterns@.map_values(|p: String| p@),
{
    regex::RegexSet::new(patterns.iter()).ok()
}

/// `RegexSet::is_match`: whether one of the set's patterns matches `text`.
#[verifier::external_body]
fn regex_set_is_match(set: &regex::RegexSet, text: &str) -> (b: bool)
    ensures
        b == regex_set_matches(regex_set_patterns(*set), text@),
{
    set.is_match(text)
}

/// The longest command or typed text accepted, in bytes.
pub const MAX_TEXT_LENGTH: usize = 1000;

/// The largest scroll amount accepted, either way.
pub const MAX_SCROLL_AMOUNT: i32 = 100;

/// The longest wait accepted, in milliseconds.
pub const MAX_WAIT_MS: u64 = 60_000;

/// The commands refused outright, case-insensitively: formatting a drive,
/// recursive deletion, shutdown, partitioning, registry deletion and
/// file-system creation.
pub open spec fn blocked_pattern_texts() -> Seq<Seq<char>> {
    seq![
        "(?i)format\\s+[a-z]:"@,
        "(?i)rm\\s+-rf"@,
        "(?i)del\\s+/[fqs]"@,
        "(?i)rd\\s+/s"@,
        "(?i)shutdown"@,
        "(?i)diskpart"@,
        "(?i)reg\\s+delete"@,
        "(?i)mkfs"@,
    ]
}

/// The refused commands as owned strings.
pub fn blocked_patterns() -> (v: Vec<String>)
    ensures
        v@.map_values(|p: String| p@) == blocked_pattern_texts(),
{
    let mut v: Vec<String> = Vec::new();
    v.push(String::from_str("(?i)format\\s+[a-z]:"));
    v.push(String::from_str("(?i)rm\\s+-rf"));
    v.push(String::from_str("(?i)del\\s+/[fqs]"));
    v.push(String::from_str("(?i)rd\\s+/s"));
    v.push(String::from_str("(?i)shutdown"));
    v.push(String::from_str("(?i)diskpart"));
    v.push(String::from_str("(?i)reg\\s+delete"));
    v.push(String::from_str("(?i)mkfs"));
    assert(v@.map_values(|p: String| p@) =~= blocked_pattern_texts());
    v
}

/// The keywords refused by default: deleting, formatting, shutting down,
/// restarting, the registry and the system folder.
pub open spec fn default_keyword_texts() -> Seq<Seq<char>> {
    seq!["delete"@, "format"@, "shutdown"@, "restart"@, "registry"@, "system32"@]
}

/// The default blocked keywords as owned strings.
pub fn default_blocked_keywords() -> (v: Vec<String>)
    ensures
        v@.map_values(|k: String| k@) == default_keyword_texts(),
{
    let mut v: Vec<String> = Vec::new();
    v.push(String::from_str("delete"));
    v.push(String::from_str("format"));
    v.push(String::from_str("shutdown"));
    v.push(String::from_str("restart"));
    v.push(String::from_str("registry"));
    v.push(String::from_str("system32"));
    assert(v@.map_values(|k: String| k@) =~= default_keyword_texts());
    v
}

/// The text `lower` holds one of `keywords`.
pub open spec fn keyword_in(lower: Seq<char>, keywords: Seq<Seq<char>>) -> bool {
    exists|q: int| 0 <= q < keywords.len() && contains_text(lower, #[trigger] keywords[q])
}

/// The length of `s` in UTF-8 bytes, as `str::len` reports it.
pub open spec fn utf8_len(s: Seq<char>) -> usize {
    vstd::utf8::encode_utf8(s).len() as usize
}

/// A rectangle of an element on screen.
#[derive(Debug, Clone, Copy)]
pub struct ElementBounds {
    pub x: i32,
    pub y: i32,
    pub width: i32,
    pub height: i32,
}

/// An action the assistant plans to carry out.
#[derive(Debug, Clone)]
pub enum LunaAction {
    Click { x: i32, y: i32 },
    Type { text: String },
    KeyCombo { keys: Vec<String> },
    Scroll { direction: String, amount: i32 },
    Wait { milliseconds: u64 },
}

/// Checks commands and planned actions against the safety rules.
pub struct SafetySystem {
    enabled: bool,
    blocked_patterns: regex::RegexSet,
    blocked_keywords: Vec<String>,
}

impl SafetySystem {
    /// Whether the checks are on.
    pub closed spec fn is_enabled(self) -> bool {
        self.enabled
    }

    /// The patterns of refused commands.
    pub closed spec fn patterns(self) -> Seq<Seq<char>> {
        regex_set_patterns(self.blocked_patterns)
    }

    /// The configured keywords that refuse a command.
    pub closed spec fn keywords(self) -> Seq<Seq<char>> {
        self.blocked_keywords@.map_values(|k: String| k@)
    }

    /// A safety system with the standard refused commands and the given
    /// blocked keywords, checking when `enabled`; `None` exactly when the
    /// patterns do not compile.
    pub fn with_keywords(enabled: bool, blocked_keywords: Vec<String>) -> (r: Option<Self>)
        ensures
            r is Some <==> regex_set_compiles(blocked_pattern_texts()),
            r matches Some(s) ==> s.is_enabled() == enabled && s.patterns() == blocked_pattern_texts() && s.keywords()
                == blocked_keywords@.map_values(|k: String| k@),
    {
        let patterns = blocked_patterns();
        match compile_regex_set(&patterns) {
            Some(set) => {
                let s = SafetySystem { enabled, blocked_patterns: set, blocked_keywords };
                assert(s.keywords() =~= blocked_keywords@.map_values(|k: String| k@));
                Some(s)
            },
            None => None,
        }
    }

    /// A safety system with the standard refused commands and the default
    /// blocked keywords, checking when `enabled`; `None` exactly when the
    /// patterns do not compile.
    pub fn new(enabled: bool) -> (r: Option<Self>)
        ensures
            r is Some <==> regex_set_compiles(blocked_pattern_texts()),
            r matches Some(s) ==> s.is_enabled() == enabled && s.patterns() == blocked_pattern_texts() && s.keywords()
                == default_keyword_texts(),
    {
        let k = default_blocked_keywords();
        Self::with_keywords(enabled, k)
    }

    /// Whether the lower-case text `lower` holds one of the keywords.
    fn mentions_keyword(&self, lower: &str) -> (b: bool)
        ensures
            b == keyword_in(lower@, self.keywords()),
    {
        let mut i: usize = 0;
        while i < self.blocked_keywords.len()
            invariant
                i <= self.blocked_keywords@.len(),
                forall|q: int| 0 <= q < i ==> !contains_text(lower@, #[trigger] self.keywords()[q]),
            decreases self.blocked_keywords@.len() - i,
        {
            assert(self.keywords()[i as int] == self.blocked_keywords@[i as int]@);
            if str_contains(lower, self.blocked_keywords[i].as_str()) {
                return true;
            }
            i = i + 1;
        }
        false
    }

    /// Whether a raw command may be processed: always when the checks are
    /// off; otherwise when it is at most 1000 bytes, matches no refused
    /// pattern and, in lower case, holds no blocked keyword.
    pub fn is_command_safe(&self, command: &str) -> (b: bool)
        ensures
            b == self.command_passes(command@),
    {
        if !self.enabled {
            return true;
        }
        if command.len() > MAX_TEXT_LENGTH {
            return false;
        }
        if regex_set_is_match(&self.blocked_patterns, command) {
            return false;
        }
        let lower = to_lowercase(command);
        !self.mentions_keyword(lower.as_str())
    }

    /// Whether a planned action may run: always when the checks are off;
    /// otherwise clicks at non-negative coordinates, typing of at most 1000
    /// bytes that matches no refused pattern, one to five keys, scrolls of
    /// at most 100 either way, and waits of at most a minute.
    pub fn is_action_safe(&self, action: &LunaAction) -> (b: bool)
        ensures
            b == (!self.is_enabled() || match action {
                LunaAction::Click { x, y } => *x >= 0 && *y >= 0,
                LunaAction::Type { text } => utf8_len(text@) <= MAX_TEXT_LENGTH
                    && !regex_set_matches(self.patterns(), text@),
                LunaAction::KeyCombo { keys } => keys.len() > 0 && keys.len() <= 5,
                LunaAction::Scroll { amount, .. } => -100 <= *amount <= 100,
                LunaAction::Wait { milliseconds } => *milliseconds <= MAX_WAIT_MS,
            }),
    {
        if !self.enabled {
            return true;
        }
        match action {
            LunaAction::Click { x, y } => *x >= 0 && *y >= 0,
            LunaAction::Type { text } => {
                text.as_str().len() <= MAX_TEXT_LENGTH && !regex_set_is_match(
                    &self.blocked_patterns,
                    text.as_str(),
                )
            },
            LunaAction::KeyCombo { keys } => keys.len() > 0 && keys.len() <= 5,
            LunaAction::Scroll { amount, .. } => -100 <= *amount && *amount <= MAX_SCROLL_AMOUNT,
            LunaAction::Wait { milliseconds } => *milliseconds <= MAX_WAIT_MS,
        }
    }

    /// Whether the command `command` passes the checks that
    /// `is_command_safe` makes.
    pub open spec fn command_passes(self, command: Seq<char>) -> bool {
        !self.is_enabled() || (utf8_len(command) <= MAX_TEXT_LENGTH && !regex_set_matches(self.patterns(), command)
            && !keyword_in(lowercase(command), self.keywords()))
    }

    /// Whether `action` passes the checks that `is_action_safe` makes.
    pub open spec fn action_passes(self, action: LunaAction) -> bool {
        !self.is_enabled() || match action {
            LunaAction::Click { x, y } => x >= 0 && y >= 0,
            LunaAction::Type { text } => utf8_len(text@) <= MAX_TEXT_LENGTH && !regex_set_matches(self.patterns(), text@),
            LunaAction::KeyCombo { keys } => keys.len() > 0 && keys.len() <= 5,
            LunaAction::Scroll { amount, .. } => -100 <= amount <= 100,
            LunaAction::Wait { milliseconds } => milliseconds <= MAX_WAIT_MS,
        }
    }

    /// The position of the first planned action that fails the checks, if
    /// any; a command's actions run only when there is none.
    pub fn first_unsafe_action(&self, actions: &Vec<LunaAction>) -> (r: Option<usize>)
        ensures
            match r {
                Some(i) => i < actions.len() && !self.action_passes(actions@[i as int]) && forall|j: int|
                    0 <= j < i ==> self.action_passes(#[trigger] actions@[j]),
                None => forall|j: int| 0 <= j < actions.len() ==> self.action_passes(#[trigger] actions@[j]),
            },
    {
        let mut i: usize = 0;
        while i < actions.len()
            invariant
                i <= actions.len(),
                forall|j: int| 0 <= j < i ==> self.action_passes(#[trigger] actions@[j]),
            decreases actions.len() - i,
        {
            if !self.is_action_safe(&actions[i]) {
                return Some(i);
            }
            i = i + 1;
        }
        None
    }
}

/// With the checks on, the numeric limits on actions are symmetric and
/// fixed: a click passes exactly at non-negative coordinates, a scroll
/// exactly when it moves at most 100 either way, a wait exactly when it
/// lasts at most a minute, and a key combination exactly with one to five
/// keys.  With the checks off every action passes.
pub proof fn lemma_action_limits(s: SafetySystem, a: LunaAction)
    ensures
        !s.is_enabled() ==> s.action_passes(a),
        s.is_enabled() ==> match a {
            LunaAction::Click { x, y } => s.action_passes(a) == (x >= 0 && y >= 0),
            LunaAction::Scroll { amount, .. } => s.action_passes(a) == (-100 <= amount && amount <= 100),
            LunaAction::Wait { milliseconds } => s.action_passes(a) == (milliseconds <= 60_000),
            LunaAction::KeyCombo { keys } => s.action_passes(a) == (1 <= keys.len() && keys.len() <= 5),
            LunaAction::Type { text } => s.action_passes(a) ==> utf8_len(text@) <= 1000,
        },
{
}

/// A command whose lower-case form holds one of the keywords is refused
/// when the checks are on, whatever the case of its letters.
pub proof fn lemma_keywords_ignore_case(s: SafetySystem, c: Seq<char>, k: Seq<char>)
    requires
        s.is_enabled(),
        s.keywords().contains(k),
        contains_text(lowercase(c), k),
    ensures
        !s.command_passes(c),
{
    let i = choose|i: int| 0 <= i < s.keywords().len() && s.keywords()[i] == k;
    assert(contains_text(lowercase(c), s.keywords()[i]));
}

} // verus!
