//! Input actions, their rate limiting and the safety check that guards
//! them.

use vstd::prelude::*;
use vstd::string::StringExecFns;
use crate::kv::{as_map, find_key, has_key, keys_distinct, lemma_as_map_push, lemma_as_map_update};
use crate::text::{append_decimal_i32, chars_of, contains_text, decimal_i32, lowercase, push_char, str_contains, str_eq, to_lowercase};

verus! {

/// A mouse button.
#[derive(Debug, Clone, Copy, PartialEq, Eq, Structural)]
pub enum MouseButton {
    Left,
    Right,
    Middle,
}

/// A scroll direction.
#[derive(Debug, Clone, Copy, PartialEq, Eq, Structural)]
pub enum ScrollDirection {
    Up,
    Down,
    Left,
    Right,
}

/// What an input action does.
#[derive(Debug, Clone)]
pub enum ActionType {
    Click { button: MouseButton },
    Type { text: String },
    Key { key: String },
    Scroll { direction: ScrollDirection, amount: i32 },
    Move { x: i32, y: i32 },
}

/// Where an action lands.
#[derive(Debug, Clone)]
pub struct Target {
    pub x: i32,
    pub y: i32,
    pub element_type: Option<String>,
}

/// An input action and the millisecond it was issued at.
#[derive(Debug, Clone)]
pub struct InputAction {
    pub action_type: ActionType,
    pub target: Target,
    pub timestamp: u64,
}

/// How risky an action is.
#[derive(Debug, Clone, Copy, PartialEq, Eq, Structural)]
pub enum RiskLevel {
    Safe,
    Low,
    Medium,
    High,
    Critical,
}

/// Why an action was not carried out.
#[derive(Debug)]
pub enum InputError {
    SafetyViolation,
    RateLimited,
    PlatformError(String),
    InvalidTarget,
    InvalidAction,
}

impl InputError {
    /// The text the error is shown with.
    pub open spec fn spec_message(&self) -> Seq<char> {
        match self {
            InputError::SafetyViolation => "Action blocked by safety system"@,
            InputError::RateLimited => "Action rate limited"@,
            InputError::PlatformError(m) => "Platform error: "@ + m@,
            InputError::InvalidTarget => "Invalid target location"@,
            InputError::InvalidAction => "Invalid action type"@,
        }
    }

    /// The text the error is shown with.
    pub fn message(&self) -> (s: String)
        ensures
            s@ == self.spec_message(),
    {
        match self {
            InputError::SafetyViolation => String::from_str("Action blocked by safety system"),
            InputError::RateLimited => String::from_str("Action rate limited"),
            InputError::PlatformError(m) => {
                let mut s = String::from_str("Platform error: ");
                s.append(m.as_str());
                s
            },
            InputError::InvalidTarget => String::from_str("Invalid target location"),
            InputError::InvalidAction => String::from_str("Invalid action type"),
        }
    }
}

/// Milliseconds from `t` to `now`, 0 if `t` is later.
pub open spec fn age(t: u64, now: u64) -> int {
    if now >= t {
        now - t
    } else {
        0
    }
}

/// The timestamps of `s` younger than `window` milliseconds at `now`, in order.
pub open spec fn younger_than(s: Seq<u64>, now: u64, window: int) -> Seq<u64>
    decreases s.len(),
{
    if s.len() == 0 {
        s
    } else {
        let before = younger_than(s.drop_last(), now, window);
        if age(s.last(), now) < window {
            before.push(s.last())
        } else {
            before
        }
    }
}

/// One second and one minute, in milliseconds.
pub open spec fn second_ms() -> int {
    1000
}

/// One minute, in milliseconds.
pub open spec fn minute_ms() -> int {
    60_000
}

/// Whether a new action is allowed given the remembered timestamps `kept`
/// (those of the last minute).
pub open spec fn allows(kept: Seq<u64>, now: u64, per_second: usize, per_minute: usize) -> bool {
    !(younger_than(kept, now, second_ms()).len() >= per_second || kept.len() >= per_minute)
}

/// Caps the rate of actions of each kind per second and per minute.
pub struct RateLimiter {
    action_counts: Vec<(String, Vec<u64>)>,
    max_actions_per_minute: usize,
    max_actions_per_second: usize,
}

impl RateLimiter {
    /// The remembered timestamps of each kind of action.
    pub closed spec fn entries(self) -> Seq<(Seq<char>, Seq<u64>)> {
        self.action_counts@.map_values(|e: (String, Vec<u64>)| (e.0@, e.1@))
    }

    /// No kind is stored twice.
    pub closed spec fn wf(self) -> bool {
        keys_distinct(self.entries())
    }

    /// The remembered timestamps per kind.
    pub closed spec fn history(self) -> Map<Seq<char>, Seq<u64>> {
        as_map(self.entries())
    }

    /// Actions allowed per minute.
    pub closed spec fn per_minute(self) -> usize {
        self.max_actions_per_minute
    }

    /// Actions allowed per second.
    pub closed spec fn per_second(self) -> usize {
        self.max_actions_per_second
    }

    /// A limiter with no history.
    pub fn new(max_per_minute: usize, max_per_second: usize) -> (r: Self)
        ensures
            r.wf(),
            r.history() == Map::<Seq<char>, Seq<u64>>::empty(),
            r.per_minute() == max_per_minute,
            r.per_second() == max_per_second,
    {
        let r = RateLimiter {
            action_counts: Vec::new(),
            max_actions_per_minute: max_per_minute,
            max_actions_per_second: max_per_second,
        };
        assert(r.entries() =~= Seq::<(Seq<char>, Seq<u64>)>::empty());
        assert(r.history() =~= Map::<Seq<char>, Seq<u64>>::empty());
        r
    }

    /// Drops the timestamps of `list` a minute old or older at `now`.
    fn prune(list: &mut Vec<u64>, now: u64)
        ensures
            final(list)@ == younger_than(old(list)@, now, minute_ms()),
    {
        let ghost s = list@;
        let mut i: usize = 0;
        let ghost mut k: int = 0;
        assert(s.take(0) =~= Seq::<u64>::empty());
        assert(list@ =~= younger_than(s.take(0), now, minute_ms()) + s.skip(0));
        while i < list.len()
            invariant
                0 <= k <= s.len(),
                i == younger_than(s.take(k), now, minute_ms()).len(),
                list@ == younger_than(s.take(k), now, minute_ms()) + s.skip(k),
            decreases list.len() - i,
        {
            let ghost d = list@;
            assert(d[i as int] == s[k]);
            assert(s.take(k + 1).drop_last() =~= s.take(k));
            let t = list[i];
            if now.saturating_sub(t) < 60_000 {
                assert(d =~= younger_than(s.take(k + 1), now, minute_ms()) + s.skip(k + 1));
                i = i + 1;
            } else {
                list.remove(i);
                assert(list@ =~= younger_than(s.take(k + 1), now, minute_ms()) + s.skip(k + 1));
            }
            proof {
                k = k + 1;
            }
        }
        proof {
            assert(s.take(k) =~= s);
        }
        assert(list@ =~= younger_than(s, now, minute_ms()));
    }

    /// How many timestamps of `list` are younger than a second at `now`.
    fn count_recent(list: &Vec<u64>, now: u64) -> (n: usize)
        ensures
            n == younger_than(list@, now, second_ms()).len(),
    {
        let mut n: usize = 0;
        let mut i: usize = 0;
        while i < list.len()
            invariant
                i <= list.len(),
                n == younger_than(list@.take(i as int), now, second_ms()).len(),
                n <= i,
            decreases list.len() - i,
        {
            assert(list@.take(i + 1).drop_last() =~= list@.take(i as int));
            if now.saturating_sub(list[i]) < 1000 {
                n = n + 1;
            }
            i = i + 1;
        }
        assert(list@.take(list.len() as int) =~= list@);
        n
    }

    /// Decides whether an action of kind `action_type` may run at the
    /// millisecond `now`, and remembers it if so. Timestamps a minute old
    /// are forgotten either way.
    pub fn check_rate_limit_at(&mut self, action_type: &str, now: u64) -> (allowed: bool)
        requires
            old(self).wf(),
        ensures
            final(self).wf(),
            final(self).per_minute() == old(self).per_minute(),
            final(self).per_second() == old(self).per_second(),
            ({
                let before = if old(self).history().contains_key(action_type@) {
                    old(self).history()[action_type@]
                } else {
                    Seq::<u64>::empty()
                };
                let kept = younger_than(before, now, minute_ms());
                &&& allowed == allows(kept, now, old(self).per_second(), old(self).per_minute())
                &&& final(self).history() == old(self).history().insert(
                    action_type@,
                    if allowed {
                        kept.push(now)
                    } else {
                        kept
                    },
                )
            }),
    {
        let ghost e = self.entries();
        let idx = match find_key(&self.action_counts, action_type) {
            Some(i) => {
                proof {
                    crate::kv::lemma_as_map_at(e, i as int);
                }
                i
            },
            None => {
                proof {
                    if has_key(e, action_type@) {
                        let j = crate::kv::key_index(e, action_type@);
                        assert(self.action_counts@[j].0@ == action_type@);
                    }
                }
                self.action_counts.push((String::from_str(action_type), Vec::new()));
                proof {
                    assert(self.entries() =~= e.push((action_type@, Seq::<u64>::empty())));
                    lemma_as_map_push(e, action_type@, Seq::<u64>::empty());
                    crate::kv::lemma_as_map_at(self.entries(), e.len() as int);
                }
                self.action_counts.len() - 1
            },
        };
        let ghost e1 = self.entries();
        let ghost before = e1[idx as int].1;
        let mut list = self.action_counts[idx].1.clone();
        assert(list@ == before) by {
            assert(self.action_counts@[idx as int].1@ == before);
        }
        Self::prune(&mut list, now);
        let recent = Self::count_recent(&list, now);
        let allowed = !(recent >= self.max_actions_per_second || list.len()
            >= self.max_actions_per_minute);
        if allowed {
            list.push(now);
        }
        let ghost newlist = list@;
        let k = self.action_counts[idx].0.clone();
        self.action_counts.set(idx, (k, list));
        proof {
            assert(self.entries() =~= e1.update(idx as int, (e1[idx as int].0, newlist)));
            lemma_as_map_update(e1, idx as int, newlist);
        }
        allowed
    }

    /// Checking an action of kind `action_type` at the millisecond `now`
    /// gave `allowed` and turned the history of `self` into that of
    /// `after`: as `check_rate_limit_at` states.
    pub open spec fn checked_at(self, after: Self, action_type: Seq<char>, now: u64, allowed: bool) -> bool {
        let before = if self.history().contains_key(action_type) {
            self.history()[action_type]
        } else {
            Seq::<u64>::empty()
        };
        let kept = younger_than(before, now, minute_ms());
        &&& allowed == allows(kept, now, self.per_second(), self.per_minute())
        &&& after.history() == self.history().insert(
            action_type,
            if allowed {
                kept.push(now)
            } else {
                kept
            },
        )
    }

    /// Decides whether an action of kind `action_type` may run now, by the
    /// system clock: what `check_rate_limit_at` decides at the clock
    /// reading of the call.
    pub fn check_rate_limit(&mut self, action_type: &str) -> (allowed: bool)
        requires
            old(self).wf(),
        ensures
            final(self).wf(),
            final(self).per_minute() == old(self).per_minute(),
            final(self).per_second() == old(self).per_second(),
            exists|now: u64|
                #![trigger old(self).checked_at(*final(self), action_type@, now, allowed)]
                old(self).checked_at(*final(self), action_type@, now, allowed),
    {
        let now = crate::util::clock_millis();
        let ghost before = *self;
        let allowed = self.check_rate_limit_at(action_type, now);
        assert(before.checked_at(*self, action_type@, now, allowed));
        allowed
    }
}

/// The timestamps kept by `younger_than` are younger than the window, and
/// there are no more of them than there were.
pub proof fn lemma_younger_than(s: Seq<u64>, now: u64, window: int)
    ensures
        younger_than(s, now, window).len() <= s.len(),
        forall|i: int|
            0 <= i < younger_than(s, now, window).len() ==> age(
                #[trigger] younger_than(s, now, window)[i],
                now,
            ) < window,
    decreases s.len(),
{
    if s.len() > 0 {
        lemma_younger_than(s.drop_last(), now, window);
    }
}

/// Keeping the timestamps younger than a second of those younger than a
/// minute is keeping those younger than a second.
pub proof fn lemma_younger_nested(s: Seq<u64>, now: u64)
    ensures
        younger_than(younger_than(s, now, minute_ms()), now, second_ms()) == younger_than(
            s,
            now,
            second_ms(),
        ),
    decreases s.len(),
{
    if s.len() > 0 {
        lemma_younger_nested(s.drop_last(), now);
        let m = younger_than(s.drop_last(), now, minute_ms());
        if age(s.last(), now) < minute_ms() {
            assert(m.push(s.last()).drop_last() =~= m);
        }
    }
}

/// Rate limiting holds: once an action is allowed at `now`, the kind's
/// remembered actions of the last second number at most `per_second`, and
/// those of the last minute at most `per_minute`.
pub proof fn lemma_rate_limit_respected(
    before: Seq<u64>,
    now: u64,
    per_second: usize,
    per_minute: usize,
)
    requires
        allows(younger_than(before, now, minute_ms()), now, per_second, per_minute),
    ensures
        ({
            let after = younger_than(before, now, minute_ms()).push(now);
            &&& younger_than(after, now, second_ms()).len() <= per_second
            &&& younger_than(after, now, minute_ms()).len() <= per_minute
        }),
{
    let kept = younger_than(before, now, minute_ms());
    let after = kept.push(now);
    assert(after.drop_last() =~= kept);
    lemma_younger_than(kept, now, minute_ms());
    lemma_younger_than(before, now, minute_ms());
    assert(younger_than(kept, now, minute_ms()) == kept) by {
        lemma_younger_idempotent(before, now);
    }
}

/// Keeping the timestamps younger than a minute twice keeps the same ones.
pub proof fn lemma_younger_idempotent(s: Seq<u64>, now: u64)
    ensures
        younger_than(younger_than(s, now, minute_ms()), now, minute_ms()) == younger_than(
            s,
            now,
            minute_ms(),
        ),
    decreases s.len(),
{
    if s.len() > 0 {
        lemma_younger_idempotent(s.drop_last(), now);
        let m = younger_than(s.drop_last(), now, minute_ms());
        if age(s.last(), now) < minute_ms() {
            assert(m.push(s.last()).drop_last() =~= m);
        }
    }
}

/// What a safety checker is asked about an action.
pub trait SafetyChecker {
    /// The checker's verdict on `action`.
    spec fn judges_safe(&self, action: &InputAction) -> bool;

    /// The checker's risk rating of `action`.
    spec fn rates(&self, action: &InputAction) -> RiskLevel;

    /// Whether `action` may run.
    fn is_action_safe(&self, action: &InputAction) -> (b: bool)
        ensures
            b == self.judges_safe(action),
    ;

    /// How risky `action` is.
    fn get_risk_level(&self, action: &InputAction) -> (r: RiskLevel)
        ensures
            r == self.rates(action),
    ;
}

/// The key combinations that are refused.
pub open spec fn is_blocked_key(key: Seq<char>) -> bool {
    key == "ctrl+alt+delete"@ || key == "alt+f4"@ || key == "win+r"@
}

/// The key combinations rated high-risk.
pub open spec fn is_high_risk_key(key: Seq<char>) -> bool {
    key == "ctrl+alt+delete"@ || key == "alt+f4"@
}

/// Some pattern of `patterns` occurs in `text`.
pub open spec fn mentions_any(text: Seq<char>, patterns: Seq<Seq<char>>) -> bool {
    exists|i: int| 0 <= i < patterns.len() && contains_text(text, #[trigger] patterns[i])
}

/// Refuses typing text that contains a forbidden command, and a few key
/// combinations.
pub struct BasicSafetyChecker {
    forbidden_patterns: Vec<String>,
}

impl BasicSafetyChecker {
    /// The forbidden patterns.
    pub closed spec fn patterns(self) -> Seq<Seq<char>> {
        self.forbidden_patterns@.map_values(|p: String| p@)
    }

    /// A checker with the standard forbidden patterns.
    pub fn new() -> (c: Self)
        ensures
            c.patterns() == seq![
                "shutdown"@,
                "format"@,
                "delete"@,
                "rm -rf"@,
                "del /s"@,
            ],
    {
        let mut v: Vec<String> = Vec::new();
        v.push(String::from_str("shutdown"));
        v.push(String::from_str("format"));
        v.push(String::from_str("delete"));
        v.push(String::from_str("rm -rf"));
        v.push(String::from_str("del /s"));
        let c = BasicSafetyChecker { forbidden_patterns: v };
        assert(c.patterns() =~= seq!["shutdown"@, "format"@, "delete"@, "rm -rf"@, "del /s"@]);
        c
    }

    /// Whether the already lower-cased `text_lower` contains a forbidden
    /// pattern.
    pub fn mentions_forbidden(&self, text_lower: &str) -> (b: bool)
        ensures
            b == mentions_any(text_lower@, self.patterns()),
    {
        let mut i: usize = 0;
        while i < self.forbidden_patterns.len()
            invariant
                i <= self.forbidden_patterns.len(),
                forall|q: int| 0 <= q < i ==> !contains_text(text_lower@, #[trigger] self.patterns()[q]),
            decreases self.forbidden_patterns.len() - i,
        {
            if str_contains(text_lower, self.forbidden_patterns[i].as_str()) {
                assert(contains_text(text_lower@, self.patterns()[i as int]));
                return true;
            }
            i = i + 1;
        }
        false
    }

    /// The risk of typing the already lower-cased `text_lower`.
    pub fn text_risk(&self, text_lower: &str) -> (r: RiskLevel)
        ensures
            r == (if mentions_any(text_lower@, self.patterns()) {
                RiskLevel::Critical
            } else if contains_text(text_lower@, "password"@) || contains_text(
                text_lower@,
                "admin"@,
            ) {
                RiskLevel::High
            } else {
                RiskLevel::Safe
            }),
    {
        if self.mentions_forbidden(text_lower) {
            RiskLevel::Critical
        } else if str_contains(text_lower, "password") || str_contains(text_lower, "admin") {
            RiskLevel::High
        } else {
            RiskLevel::Safe
        }
    }
}

impl SafetyChecker for BasicSafetyChecker {
    open spec fn judges_safe(&self, action: &InputAction) -> bool {
        match action.action_type {
            ActionType::Type { text } => !mentions_any(lowercase(text@), self.patterns()),
            ActionType::Key { key } => !is_blocked_key(key@),
            _ => true,
        }
    }

    open spec fn rates(&self, action: &InputAction) -> RiskLevel {
        match action.action_type {
            ActionType::Type { text } => {
                let t = lowercase(text@);
                if mentions_any(t, self.patterns()) {
                    RiskLevel::Critical
                } else if contains_text(t, "password"@) || contains_text(t, "admin"@) {
                    RiskLevel::High
                } else {
                    RiskLevel::Safe
                }
            },
            ActionType::Key { key } => if is_high_risk_key(key@) {
                RiskLevel::High
            } else {
                RiskLevel::Low
            },
            _ => RiskLevel::Low,
        }
    }

    fn is_action_safe(&self, action: &InputAction) -> (b: bool) {
        match &action.action_type {
            ActionType::Type { text } => {
                let lower = to_lowercase(text.as_str());
                !self.mentions_forbidden(lower.as_str())
            },
            ActionType::Key { key } => {
                !(str_eq(key.as_str(), "ctrl+alt+delete") || str_eq(key.as_str(), "alt+f4")
                    || str_eq(key.as_str(), "win+r"))
            },
            _ => true,
        }
    }

    fn get_risk_level(&self, action: &InputAction) -> (r: RiskLevel) {
        match &action.action_type {
            ActionType::Type { text } => {
                let lower = to_lowercase(text.as_str());
                self.text_risk(lower.as_str())
            },
            ActionType::Key { key } => {
                if str_eq(key.as_str(), "ctrl+alt+delete") || str_eq(key.as_str(), "alt+f4") {
                    RiskLevel::High
                } else {
                    RiskLevel::Low
                }
            },
            _ => RiskLevel::Low,
        }
    }
}

/// The basic checker judges typing by the text in lower case: two texts
/// whose lower-case forms agree get the same verdict, whatever their
/// letters' case.
pub proof fn lemma_typing_verdict_ignores_case(
    c: BasicSafetyChecker,
    a: InputAction,
    b: InputAction,
    ta: String,
    tb: String,
)
    requires
        a.action_type == (ActionType::Type { text: ta }),
        b.action_type == (ActionType::Type { text: tb }),
        lowercase(ta@) == lowercase(tb@),
    ensures
        c.judges_safe(&a) == c.judges_safe(&b),
{
}

/// Typing a text is refused whenever its lower-case form holds one of the
/// checker's forbidden patterns; with the standard patterns, whenever it
/// holds `shutdown`, `format`, `delete`, `rm -rf` or `del /s`.
pub proof fn lemma_typing_forbidden_refused(c: BasicSafetyChecker, a: InputAction, text: String, pattern: Seq<char>)
    requires
        a.action_type == (ActionType::Type { text }),
        contains_text(lowercase(text@), pattern),
        c.patterns().contains(pattern),
    ensures
        !c.judges_safe(&a),
{
    let i = choose|i: int| 0 <= i < c.patterns().len() && c.patterns()[i] == pattern;
    assert(contains_text(lowercase(text@), c.patterns()[i]));
}

/// With the standard patterns, typing a text whose lower-case form holds
/// none of them passes the checker.
pub proof fn lemma_typing_clean_passes(c: BasicSafetyChecker, a: InputAction, text: String)
    requires
        c.patterns() == seq!["shutdown"@, "format"@, "delete"@, "rm -rf"@, "del /s"@],
        a.action_type == (ActionType::Type { text }),
        !contains_text(lowercase(text@), "shutdown"@),
        !contains_text(lowercase(text@), "format"@),
        !contains_text(lowercase(text@), "delete"@),
        !contains_text(lowercase(text@), "rm -rf"@),
        !contains_text(lowercase(text@), "del /s"@),
    ensures
        c.judges_safe(&a),
{
    assert forall|i: int| 0 <= i < c.patterns().len() implies !contains_text(lowercase(text@), #[trigger] c.patterns()[i]) by {}
}

/// The name every input action is rate-limited under: the limits hold
/// for all actions together.
pub open spec fn controller_key() -> Seq<char> {
    "input"@
}

/// Runs input actions that pass the safety check and the rate limit, and
/// keeps the history of those that ran.
pub struct InputController<C: SafetyChecker> {
    action_history: Vec<InputAction>,
    rate_limiter: RateLimiter,
    safety_checker: C,
}

impl<C: SafetyChecker> InputController<C> {
    /// The actions that ran, oldest first.
    pub closed spec fn history(self) -> Seq<InputAction> {
        self.action_history@
    }

    /// The rate limiter's state.
    pub closed spec fn limiter(self) -> RateLimiter {
        self.rate_limiter
    }

    /// The safety checker.
    pub closed spec fn checker(self) -> C {
        self.safety_checker
    }

    /// The controller is consistent.
    pub closed spec fn wf(self) -> bool {
        self.rate_limiter.wf()
    }

    /// A controller with an empty history, allowing 100 actions a minute
    /// and 10 a second, all kinds together.
    pub fn new(safety_checker: C) -> (c: Self)
        ensures
            c.wf(),
            c.history() == Seq::<InputAction>::empty(),
            c.checker() == safety_checker,
            c.limiter().history() == Map::<Seq<char>, Seq<u64>>::empty(),
            c.limiter().per_minute() == 100,
            c.limiter().per_second() == 10,
    {
        InputController {
            action_history: Vec::new(),
            rate_limiter: RateLimiter::new(100, 10),
            safety_checker,
        }
    }

    /// Checks `action` against the safety checker, then against the rate
    /// limit at the millisecond `now`, and records it if both pass.
    pub fn execute_action_at(&mut self, action: InputAction, now: u64) -> (r: Result<(), InputError>)
        requires
            old(self).wf(),
        ensures
            final(self).wf(),
            final(self).checker() == old(self).checker(),
            !old(self).checker().judges_safe(&action) ==> (r matches Err(
                InputError::SafetyViolation,
            )) && final(self).history() == old(self).history() && final(self).limiter() == old(self).limiter(),
            old(self).checker().judges_safe(&action) ==> {
                let before = if old(self).limiter().history().contains_key(
                    controller_key(),
                ) {
                    old(self).limiter().history()[controller_key()]
                } else {
                    Seq::<u64>::empty()
                };
                let ok = allows(
                    younger_than(before, now, minute_ms()),
                    now,
                    old(self).limiter().per_second(),
                    old(self).limiter().per_minute(),
                );
                &&& ok ==> r is Ok && final(self).history() == old(self).history().push(action)
                &&& !ok ==> (r matches Err(InputError::RateLimited)) && final(self).history()
                    == old(self).history()
                &&& old(self).limiter().checked_at(final(self).limiter(), controller_key(), now, ok)
                &&& final(self).limiter().per_second() == old(self).limiter().per_second()
                &&& final(self).limiter().per_minute() == old(self).limiter().per_minute()
            },
    {
        if !self.safety_checker.is_action_safe(&action) {
            return Err(InputError::SafetyViolation);
        }
        proof {
            reveal_strlit("input");
        }
        if !self.rate_limiter.check_rate_limit_at("input", now) {
            return Err(InputError::RateLimited);
        }
        self.action_history.push(action);
        Ok(())
    }

    /// Running `action` at the millisecond `now` gave `r` and turned
    /// `self` into `after`, as `execute_action_at` states: an unsafe action
    /// is refused and changes nothing; a safe one runs when the rate limit
    /// allows it, and is refused as rate-limited otherwise.
    pub open spec fn executed_at(self, after: Self, action: InputAction, now: u64, r: Result<(), InputError>) -> bool {
        &&& !self.checker().judges_safe(&action) ==> (r matches Err(InputError::SafetyViolation))
            && after.history() == self.history() && after.limiter() == self.limiter()
        &&& self.checker().judges_safe(&action) ==> {
            let before = if self.limiter().history().contains_key(controller_key()) {
                self.limiter().history()[controller_key()]
            } else {
                Seq::<u64>::empty()
            };
            let ok = allows(
                younger_than(before, now, minute_ms()),
                now,
                self.limiter().per_second(),
                self.limiter().per_minute(),
            );
            &&& ok ==> r is Ok && after.history() == self.history().push(action)
            &&& !ok ==> (r matches Err(InputError::RateLimited)) && after.history() == self.history()
            &&& self.limiter().checked_at(after.limiter(), controller_key(), now, ok)
            &&& after.limiter().per_second() == self.limiter().per_second()
            &&& after.limiter().per_minute() == self.limiter().per_minute()
        }
    }

    /// `execute_action_at` at the current time by the system clock.
    pub fn execute_action(&mut self, action: InputAction) -> (r: Result<(), InputError>)
        requires
            old(self).wf(),
        ensures
            final(self).wf(),
            final(self).checker() == old(self).checker(),
            exists|now: u64|
                #![trigger old(self).executed_at(*final(self), action, now, r)]
                old(self).executed_at(*final(self), action, now, r),
            !old(self).checker().judges_safe(&action) ==> (r matches Err(
                InputError::SafetyViolation,
            )) && final(self).history() == old(self).history(),
            r is Ok ==> final(self).history() == old(self).history().push(action),
            r is Err ==> final(self).history() == old(self).history(),
    {
        let now = crate::util::clock_millis();
        let ghost before = *self;
        let ghost a = action;
        let r = self.execute_action_at(action, now);
        assert(before.executed_at(*self, a, now, r));
        r
    }

    /// The actions that ran, oldest first.
    pub fn get_action_history(&self) -> (h: &[InputAction])
        ensures
            h@ == self.history(),
    {
        self.action_history.as_slice()
    }

    /// Forgets the history of actions.
    pub fn clear_history(&mut self)
        requires
            old(self).wf(),
        ensures
            final(self).wf(),
            final(self).history() == Seq::<InputAction>::empty(),
            final(self).limiter() == old(self).limiter(),
            final(self).checker() == old(self).checker(),
    {
        self.action_history.clear();
    }
}

/// The Windows virtual-key code of a named key: the modifiers, editing and
/// navigation keys, and the function keys F1 to F12.
pub open spec fn named_key_code(s: Seq<char>) -> Option<u16> {
    if s == "ctrl"@ {
        Some(0x11u16)
    } else if s == "control"@ {
        Some(0x11u16)
    } else if s == "shift"@ {
        Some(0x10u16)
    } else if s == "alt"@ {
        Some(0x12u16)
    } else if s == "enter"@ {
        Some(0x0Du16)
    } else if s == "return"@ {
        Some(0x0Du16)
    } else if s == "space"@ {
        Some(0x20u16)
    } else if s == "tab"@ {
        Some(0x09u16)
    } else if s == "escape"@ {
        Some(0x1Bu16)
    } else if s == "esc"@ {
        Some(0x1Bu16)
    } else if s == "backspace"@ {
        Some(0x08u16)
    } else if s == "delete"@ {
        Some(0x2Eu16)
    } else if s == "del"@ {
        Some(0x2Eu16)
    } else if s == "home"@ {
        Some(0x24u16)
    } else if s == "end"@ {
        Some(0x23u16)
    } else if s == "pageup"@ {
        Some(0x21u16)
    } else if s == "pagedown"@ {
        Some(0x22u16)
    } else if s == "up"@ {
        Some(0x26u16)
    } else if s == "down"@ {
        Some(0x28u16)
    } else if s == "left"@ {
        Some(0x25u16)
    } else if s == "right"@ {
        Some(0x27u16)
    } else if s == "f1"@ {
        Some(0x70u16)
    } else if s == "f2"@ {
        Some(0x71u16)
    } else if s == "f3"@ {
        Some(0x72u16)
    } else if s == "f4"@ {
        Some(0x73u16)
    } else if s == "f5"@ {
        Some(0x74u16)
    } else if s == "f6"@ {
        Some(0x75u16)
    } else if s == "f7"@ {
        Some(0x76u16)
    } else if s == "f8"@ {
        Some(0x77u16)
    } else if s == "f9"@ {
        Some(0x78u16)
    } else if s == "f10"@ {
        Some(0x79u16)
    } else if s == "f11"@ {
        Some(0x7Au16)
    } else if s == "f12"@ {
        Some(0x7Bu16)
    } else {
        None
    }
}

fn named_key(s: &str) -> (r: Option<u16>)
    ensures
        r == named_key_code(s@),
{
    if str_eq(s, "ctrl") {
        Some(0x11)
    } else if str_eq(s, "control") {
        Some(0x11)
    } else if str_eq(s, "shift") {
        Some(0x10)
    } else if str_eq(s, "alt") {
        Some(0x12)
    } else if str_eq(s, "enter") {
        Some(0x0D)
    } else if str_eq(s, "return") {
        Some(0x0D)
    } else if str_eq(s, "space") {
        Some(0x20)
    } else if str_eq(s, "tab") {
        Some(0x09)
    } else if str_eq(s, "escape") {
        Some(0x1B)
    } else if str_eq(s, "esc") {
        Some(0x1B)
    } else if str_eq(s, "backspace") {
        Some(0x08)
    } else if str_eq(s, "delete") {
        Some(0x2E)
    } else if str_eq(s, "del") {
        Some(0x2E)
    } else if str_eq(s, "home") {
        Some(0x24)
    } else if str_eq(s, "end") {
        Some(0x23)
    } else if str_eq(s, "pageup") {
        Some(0x21)
    } else if str_eq(s, "pagedown") {
        Some(0x22)
    } else if str_eq(s, "up") {
        Some(0x26)
    } else if str_eq(s, "down") {
        Some(0x28)
    } else if str_eq(s, "left") {
        Some(0x25)
    } else if str_eq(s, "right") {
        Some(0x27)
    } else if str_eq(s, "f1") {
        Some(0x70)
    } else if str_eq(s, "f2") {
        Some(0x71)
    } else if str_eq(s, "f3") {
        Some(0x72)
    } else if str_eq(s, "f4") {
        Some(0x73)
    } else if str_eq(s, "f5") {
        Some(0x74)
    } else if str_eq(s, "f6") {
        Some(0x75)
    } else if str_eq(s, "f7") {
        Some(0x76)
    } else if str_eq(s, "f8") {
        Some(0x77)
    } else if str_eq(s, "f9") {
        Some(0x78)
    } else if str_eq(s, "f10") {
        Some(0x79)
    } else if str_eq(s, "f11") {
        Some(0x7A)
    } else if str_eq(s, "f12") {
        Some(0x7B)
    } else {
        None
    }
}

/// The virtual-key code of a one-character key: letters map to `0x41` on,
/// digits to `0x30` on.
pub open spec fn char_key_code(c: char) -> Option<u16> {
    if 'a' <= c <= 'z' {
        Some((c as u32 - 'a' as u32 + 0x41) as u16)
    } else if '0' <= c <= '9' {
        Some((c as u32 - '0' as u32 + 0x30) as u16)
    } else {
        None
    }
}

/// The virtual-key code of the key named `key`, compared in lower case:
/// a named key; else, for a one-byte name, a letter or digit, or the error
/// `Unsupported key: ` with the name; else the error `Unknown key: ` with
/// the name.
pub open spec fn key_code_result(key: Seq<char>) -> Result<u16, Seq<char>> {
    let s = lowercase(key);
    match named_key_code(s) {
        Some(c) => Ok(c),
        None => if crate::safety::utf8_len(s) == 1 {
            match char_key_code(s[0]) {
                Some(c) => Ok(c),
                None => Err("Unsupported key: "@ + s),
            }
        } else {
            Err("Unknown key: "@ + s)
        },
    }
}

/// The virtual-key code of the key named `key`.
pub fn get_virtual_key_code(key: &str) -> (r: Result<u16, String>)
    ensures
        match key_code_result(key@) {
            Ok(c) => r == Ok::<u16, String>(c),
            Err(m) => r matches Err(e) && e@ == m,
        },
{
    let lower = to_lowercase(key);
    let s = lower.as_str();
    if let Some(c) = named_key(s) {
        return Ok(c);
    }
    if s.len() == 1 {
        let v = chars_of(s);
        proof {
            lemma_one_byte_one_char(s@);
        }
        let ch = v[0];
        if 'a' <= ch && ch <= 'z' {
            return Ok((ch as u32 - 'a' as u32 + 0x41) as u16);
        }
        if '0' <= ch && ch <= '9' {
            return Ok((ch as u32 - '0' as u32 + 0x30) as u16);
        }
        let mut m = String::from_str("Unsupported key: ");
        m.append(s);
        return Err(m);
    }
    let mut m = String::from_str("Unknown key: ");
    m.append(s);
    Err(m)
}

proof fn lemma_one_byte_one_char(s: Seq<char>)
    requires
        crate::safety::utf8_len(s) == 1,
    ensures
        s.len() >= 1,
{
    if s.len() == 0 {
        assert(vstd::utf8::encode_utf8(s) =~= Seq::<u8>::empty()) by {
            reveal_with_fuel(vstd::utf8::encode_utf8, 2);
        }
    }
}

} // verus!
