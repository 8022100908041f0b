//! Screen analysis and rule-based action planning: UI elements found by
//! hand-written computer vision, and the actions a command asks for on
//! them.  Confidences are whole percentages.

use vstd::prelude::*;
use vstd::string::StringExecFns;
use crate::image::Image;
use crate::safety::{ElementBounds, LunaAction, utf8_len};
use crate::text::{
    chars_find, chars_of, contains_text, first_occurrence, is_white_space, lowercase, occurs_at, str_contains,
    str_eq, string_of, to_lowercase, trimmed,
};

verus! {

/// A UI element found on screen.
pub struct ScreenElement {
    pub element_type: String,
    pub bounds: ElementBounds,
    /// How sure the detector is, in percent.
    pub confidence: u32,
    pub text: Option<String>,
    pub attributes: Vec<(String, String)>,
}

/// What the words of a text are so far, reading from the left: the words
/// finished and the word being read.
pub open spec fn words_from(s: Seq<char>) -> (Seq<Seq<char>>, Seq<char>)
    decreases s.len(),
{
    if s.len() == 0 {
        (Seq::empty(), Seq::empty())
    } else {
        let (ws, cur) = words_from(s.drop_last());
        let c = s.last();
        if is_white_space(c) {
            if cur.len() > 0 {
                (ws.push(cur), Seq::empty())
            } else {
                (ws, Seq::empty())
            }
        } else {
            (ws, cur.push(c))
        }
    }
}

/// The words of `s`: its maximal runs of characters other than white space
/// (`str::split_whitespace`).
pub open spec fn words(s: Seq<char>) -> Seq<Seq<char>> {
    let (ws, cur) = words_from(s);
    if cur.len() > 0 {
        ws.push(cur)
    } else {
        ws
    }
}

/// The words of `s`.
pub fn split_words(s: &str) -> (r: Vec<String>)
    ensures
        r@.map_values(|w: String| w@) == words(s@),
{
    let v = chars_of(s);
    let mut ws: Vec<String> = Vec::new();
    let mut start: usize = 0;
    let mut i: usize = 0;
    while i < v.len()
        invariant
            start <= i <= v.len(),
            v@ == s@,
            words_from(v@.take(i as int)) == (ws@.map_values(|w: String| w@), v@.subrange(start as int, i as int)),
        decreases v.len() - i,
    {
        assert(v@.take(i + 1).drop_last() =~= v@.take(i as int));
        assert(v@.take(i + 1).last() == v@[i as int]);
        let ghost before = ws@;
        if crate::text::white_space(v[i]) {
            if start < i {
                let w = string_of(&v, start, i);
                ws.push(w);
                assert(ws@.map_values(|w: String| w@) =~= before.map_values(|w: String| w@).push(
                    v@.subrange(start as int, i as int),
                ));
            }
            start = i + 1;
            assert(v@.subrange(start as int, i + 1) =~= Seq::<char>::empty());
        } else {
            assert(v@.subrange(start as int, i + 1) =~= v@.subrange(start as int, i as int).push(v@[i as int]));
        }
        i = i + 1;
    }
    assert(v@.take(v.len() as int) =~= s@);
    if start < v.len() {
        let ghost before = ws@;
        let w = string_of(&v, start, v.len());
        ws.push(w);
        assert(ws@.map_values(|w: String| w@) =~= before.map_values(|w: String| w@).push(
            v@.subrange(start as int, v.len() as int),
        ));
    }
    ws
}

/// `text` is matched by a word of the command `cmd` longer than two
/// bytes that occurs in its lower-case form.
pub open spec fn text_matches(cmd: Seq<char>, text: Seq<char>) -> bool {
    exists|j: int|
        0 <= j < words(cmd).len() && utf8_len(#[trigger] words(cmd)[j]) > 2 && contains_text(
            lowercase(text),
            words(cmd)[j],
        )
}

/// The first of the first `n` elements whose type is `t`.
pub open spec fn first_of_type(els: Seq<ScreenElement>, t: Seq<char>, n: int) -> Option<int>
    decreases n,
{
    if n <= 0 {
        None
    } else {
        match first_of_type(els, t, n - 1) {
            Some(i) => Some(i),
            None => if els[n - 1].element_type@ == t {
                Some(n - 1)
            } else {
                None
            },
        }
    }
}

/// The element `e` has a text that the command `cmd` matches.
pub open spec fn element_matches(cmd: Seq<char>, e: ScreenElement) -> bool {
    match e.text {
        Some(t) => text_matches(cmd, t@),
        None => false,
    }
}

/// The first of the first `n` elements whose text the command matches.
pub open spec fn first_text_match(els: Seq<ScreenElement>, cmd: Seq<char>, n: int) -> Option<int>
    decreases n,
{
    if n <= 0 {
        None
    } else {
        match first_text_match(els, cmd, n - 1) {
            Some(i) => Some(i),
            None => if element_matches(cmd, els[n - 1]) {
                Some(n - 1)
            } else {
                None
            },
        }
    }
}

/// A button, link or icon.
pub open spec fn is_clickable_type(t: Seq<char>) -> bool {
    t == "button"@ || t == "link"@ || t == "icon"@
}

/// The first of the first `n` elements that is a button, link or icon.
pub open spec fn first_clickable(els: Seq<ScreenElement>, n: int) -> Option<int>
    decreases n,
{
    if n <= 0 {
        None
    } else {
        match first_clickable(els, n - 1) {
            Some(i) => Some(i),
            None => if is_clickable_type(els[n - 1].element_type@) {
                Some(n - 1)
            } else {
                None
            },
        }
    }
}

/// The command speaks of buttons: it holds `button`, `click` or `press`.
pub open spec fn asks_button(cmd: Seq<char>) -> bool {
    contains_text(cmd, "button"@) || contains_text(cmd, "click"@) || contains_text(cmd, "press"@)
}

/// The command speaks of links: it holds `link`, `navigate` or `go to`.
pub open spec fn asks_link(cmd: Seq<char>) -> bool {
    contains_text(cmd, "link"@) || contains_text(cmd, "navigate"@) || contains_text(cmd, "go to"@)
}

/// The element the lower-case command `cmd` means: the first button when
/// it speaks of buttons and there is one; else the first link when it
/// speaks of links and there is one; else the first element whose text a
/// word of the command matches; else the first button, link or icon.
pub open spec fn clickable_index(cmd: Seq<char>, els: Seq<ScreenElement>) -> Option<int> {
    let n = els.len() as int;
    if asks_button(cmd) && first_of_type(els, "button"@, n) is Some {
        first_of_type(els, "button"@, n)
    } else if asks_link(cmd) && first_of_type(els, "link"@, n) is Some {
        first_of_type(els, "link"@, n)
    } else if first_text_match(els, cmd, n) is Some {
        first_text_match(els, cmd, n)
    } else {
        first_clickable(els, n)
    }
}

proof fn lemma_first_of_type_bounds(els: Seq<ScreenElement>, t: Seq<char>, n: int)
    ensures
        first_of_type(els, t, n) matches Some(i) ==> 0 <= i < n && els[i].element_type@ == t,
    decreases n,
{
    if n > 0 {
        lemma_first_of_type_bounds(els, t, n - 1);
    }
}

/// The first element of type `t`, if there is one.
fn find_of_type(els: &Vec<ScreenElement>, t: &str) -> (r: Option<usize>)
    ensures
        match r {
            Some(i) => first_of_type(els@, t@, els.len() as int) == Some(i as int),
            None => first_of_type(els@, t@, els.len() as int) is None,
        },
{
    let mut k: usize = 0;
    while k < els.len()
        invariant
            k <= els.len(),
            first_of_type(els@, t@, k as int) is None,
        decreases els.len() - k,
    {
        if str_eq(els[k].element_type.as_str(), t) {
            assert(first_of_type(els@, t@, k + 1) == Some(k as int));
            proof {
                lemma_first_of_type_stable(els@, t@, k + 1, els.len() as int);
            }
            return Some(k);
        }
        k = k + 1;
    }
    None
}

proof fn lemma_first_of_type_stable(els: Seq<ScreenElement>, t: Seq<char>, m: int, n: int)
    requires
        0 <= m <= n,
        first_of_type(els, t, m) is Some,
    ensures
        first_of_type(els, t, n) == first_of_type(els, t, m),
    decreases n - m,
{
    if m < n {
        lemma_first_of_type_stable(els, t, m, n - 1);
    }
}

proof fn lemma_first_text_match_stable(els: Seq<ScreenElement>, cmd: Seq<char>, m: int, n: int)
    requires
        0 <= m <= n,
        first_text_match(els, cmd, m) is Some,
    ensures
        first_text_match(els, cmd, n) == first_text_match(els, cmd, m),
    decreases n - m,
{
    if m < n {
        lemma_first_text_match_stable(els, cmd, m, n - 1);
    }
}

proof fn lemma_first_clickable_stable(els: Seq<ScreenElement>, m: int, n: int)
    requires
        0 <= m <= n,
        first_clickable(els, m) is Some,
    ensures
        first_clickable(els, n) == first_clickable(els, m),
    decreases n - m,
{
    if m < n {
        lemma_first_clickable_stable(els, m, n - 1);
    }
}

/// Whether a word of `words` longer than two bytes occurs in `text_lower`.
fn some_word_in(ws: &Vec<String>, text_lower: &str) -> (b: bool)
    ensures
        b == exists|j: int|
            0 <= j < ws@.len() && utf8_len(#[trigger] ws@[j]@) > 2 && contains_text(text_lower@, ws@[j]@),
{
    let mut j: usize = 0;
    while j < ws.len()
        invariant
            j <= ws.len(),
            forall|q: int| 0 <= q < j ==> !(utf8_len(#[trigger] ws@[q]@) > 2 && contains_text(text_lower@, ws@[q]@)),
        decreases ws.len() - j,
    {
        let w = &ws[j];
        if str_contains(text_lower, w.as_str()) && w.as_str().len() > 2 {
            assert(utf8_len(ws@[j as int]@) > 2);
            return true;
        }
        j = j + 1;
    }
    false
}

/// The element that the lower-case command `command` means, by the rules
/// of `clickable_index`.
pub fn find_clickable_element(command: &str, elements: &Vec<ScreenElement>) -> (r: Option<usize>)
    ensures
        match r {
            Some(i) => clickable_index(command@, elements@) == Some(i as int),
            None => clickable_index(command@, elements@) is None,
        },
        r matches Some(i) ==> i < elements.len(),
{
    let ghost n = elements.len() as int;
    proof {
        lemma_first_of_type_bounds(elements@, "button"@, n);
        lemma_first_of_type_bounds(elements@, "link"@, n);
    }
    let wants_button = str_contains(command, "button") || str_contains(command, "click") || str_contains(
        command,
        "press",
    );
    assert(wants_button == asks_button(command@));
    if wants_button {
        if let Some(i) = find_of_type(elements, "button") {
            return Some(i);
        }
    }
    assert(!(asks_button(command@) && first_of_type(elements@, "button"@, n) is Some));
    let wants_link = str_contains(command, "link") || str_contains(command, "navigate") || str_contains(
        command,
        "go to",
    );
    assert(wants_link == asks_link(command@));
    if wants_link {
        if let Some(i) = find_of_type(elements, "link") {
            return Some(i);
        }
    }
    assert(!(asks_link(command@) && first_of_type(elements@, "link"@, n) is Some));
    let ws = split_words(command);
    let ghost wv = ws@.map_values(|w: String| w@);
    let mut k: usize = 0;
    while k < elements.len()
        invariant
            k <= elements.len(),
            n == elements.len(),
            wv == ws@.map_values(|w: String| w@),
            wv == words(command@),
            first_text_match(elements@, command@, k as int) is None,
            !(asks_button(command@) && first_of_type(elements@, "button"@, n) is Some),
            !(asks_link(command@) && first_of_type(elements@, "link"@, n) is Some),
        decreases elements.len() - k,
    {
        let found = match &elements[k].text {
            Some(t) => {
                let tl = to_lowercase(t.as_str());
                let b = some_word_in(&ws, tl.as_str());
                proof {
                    if b {
                        let j = choose|j: int|
                            0 <= j < ws@.len() && utf8_len(#[trigger] ws@[j]@) > 2 && contains_text(tl@, ws@[j]@);
                        assert(wv[j] == ws@[j]@);
                        assert(text_matches(command@, t@));
                    } else {
                        assert forall|j: int|
                            0 <= j < words(command@).len() && utf8_len(#[trigger] words(command@)[j]) > 2 implies !contains_text(
                            lowercase(t@),
                            words(command@)[j],
                        ) by {
                            assert(wv[j] == ws@[j]@);
                        }
                    }
                }
                b
            },
            None => false,
        };
        if found {
            assert(first_text_match(elements@, command@, k + 1) == Some(k as int));
            proof {
                lemma_first_text_match_stable(elements@, command@, k + 1, n);
            }
            return Some(k);
        }
        k = k + 1;
    }
    let mut k: usize = 0;
    while k < elements.len()
        invariant
            k <= elements.len(),
            n == elements.len(),
            first_clickable(elements@, k as int) is None,
            first_text_match(elements@, command@, n) is None,
            !(asks_button(command@) && first_of_type(elements@, "button"@, n) is Some),
            !(asks_link(command@) && first_of_type(elements@, "link"@, n) is Some),
        decreases elements.len() - k,
    {
        let t = elements[k].element_type.as_str();
        if str_eq(t, "button") || str_eq(t, "link") || str_eq(t, "icon") {
            assert(first_clickable(elements@, k + 1) == Some(k as int));
            proof {
                lemma_first_clickable_stable(elements@, k + 1, n);
            }
            return Some(k);
        }
        k = k + 1;
    }
    None
}

/// The text between the first two `"` of `cmd`, when there are two.
pub open spec fn quoted_text(cmd: Seq<char>) -> Option<Seq<char>> {
    match first_occurrence(cmd, "\""@) {
        Some(s) => match first_occurrence(cmd.skip(s + 1), "\""@) {
            Some(e) => Some(cmd.subrange(s + 1, s + 1 + e)),
            None => None,
        },
        None => None,
    }
}

/// The trimmed rest of `cmd` after the first `type` of its lower-case
/// form, when that rest is not empty.
pub open spec fn text_after_type(cmd: Seq<char>) -> Option<Seq<char>> {
    match first_occurrence(lowercase(cmd), "type"@) {
        Some(p) => {
            let rest = if p + 4 <= cmd.len() {
                trimmed(cmd.skip(p + 4))
            } else {
                Seq::empty()
            };
            if rest.len() > 0 {
                Some(rest)
            } else {
                None
            }
        },
        None => None,
    }
}

/// The text a command asks to type: quoted text first, else what follows
/// `type`.
pub open spec fn text_to_type(cmd: Seq<char>) -> Option<Seq<char>> {
    match quoted_text(cmd) {
        Some(t) => Some(t),
        None => text_after_type(cmd),
    }
}

fn quoted_in(v: &Vec<char>) -> (r: Option<String>)
    ensures
        match r {
            Some(t) => quoted_text(v@) == Some(t@),
            None => quoted_text(v@) is None,
        },
{
    let quote = chars_of("\"");
    proof {
        reveal_strlit("\"");
    }
    match chars_find(v, &quote) {
        Some(s) => {
            assert(quote@.len() == 1);
            assert(occurs_at(v@, quote@, s as int));
            assert(s + 1 <= v@.len());
            assert(s < v.len());
            let start: usize = s + 1;
            let rest_text = string_of(v, start, v.len());
            let rest = chars_of(rest_text.as_str());
            assert(rest@ =~= v@.skip(s + 1));
            match chars_find(&rest, &quote) {
                Some(e) => {
                    assert(s + 1 + e <= v.len()) by {
                        assert(occurs_at(rest@, quote@, e as int));
                    }
                    Some(string_of(v, s + 1, s + 1 + e))
                },
                None => None,
            }
        },
        None => None,
    }
}

fn after_type_in(command: &str, v: &Vec<char>) -> (r: Option<String>)
    requires
        v@ == command@,
    ensures
        match r {
            Some(t) => text_after_type(command@) == Some(t@),
            None => text_after_type(command@) is None,
        },
{
    let lower = to_lowercase(command);
    let lv = chars_of(lower.as_str());
    let key = chars_of("type");
    proof {
        reveal_strlit("type");
    }
    match chars_find(&lv, &key) {
        Some(p) => {
            if p < v.len() && 4 <= v.len() - p {
                let (a, b) = crate::text::trim_bounds(v, p + 4, v.len());
                assert(v@.subrange(p + 4, v.len() as int) =~= command@.skip(p + 4));
                if a < b {
                    return Some(string_of(v, a, b));
                }
            } else {
                proof {
                    if p + 4 <= v.len() {
                        assert(p == v.len());
                        assert(command@.skip(p + 4) =~= Seq::<char>::empty());
                        assert(crate::text::trim_start(Seq::<char>::empty()) == Seq::<char>::empty());
                        assert(crate::text::trim_end(Seq::<char>::empty()) == Seq::<char>::empty());
                    }
                }
            }
            None
        },
        None => None,
    }
}

/// The text the command `command` asks to type, if any.
pub fn extract_text_from_command(command: &str) -> (r: Option<String>)
    ensures
        match r {
            Some(t) => text_to_type(command@) == Some(t@),
            None => text_to_type(command@) is None,
        },
{
    let v = chars_of(command);
    match quoted_in(&v) {
        Some(t) => Some(t),
        None => after_type_in(command, &v),
    }
}

/// Half of `w`, rounded toward zero as integer division does.
pub open spec fn half(w: i32) -> int {
    if w >= 0 {
        w as int / 2
    } else {
        -((-(w as int)) / 2)
    }
}

/// The center of `b`, halves rounded toward zero.
pub open spec fn center(b: ElementBounds) -> (int, int) {
    (b.x + half(b.width), b.y + half(b.height))
}

/// The center of `b` is a point of `i32` coordinates.
pub open spec fn center_fits(b: ElementBounds) -> bool {
    i32::MIN <= center(b).0 <= i32::MAX && i32::MIN <= center(b).1 <= i32::MAX
}

fn half_of(w: i32) -> (h: i64)
    ensures
        h == half(w),
{
    if w >= 0 {
        (w as i64) / 2
    } else {
        -((-(w as i64)) / 2)
    }
}

/// The actions `r` are what the command `cmd` asks for on the elements
/// `els`: for `click`, a click at the center of the element it means, if
/// any; else for `type` or `enter`, typing the text it gives, if any; else
/// for `scroll`, a scroll of 3 up when it says `up` and down otherwise;
/// else nothing.  The keywords are looked for in the lower-case command.
pub open spec fn planned(cmd: Seq<char>, els: Seq<ScreenElement>, r: Seq<LunaAction>) -> bool {
    let lower = lowercase(cmd);
    if contains_text(lower, "click"@) {
        match clickable_index(lower, els) {
            Some(i) => r.len() == 1 && (r[0] matches LunaAction::Click { x, y } && (x as int, y as int) == center(
                els[i].bounds,
            )),
            None => r.len() == 0,
        }
    } else if contains_text(lower, "type"@) || contains_text(lower, "enter"@) {
        match text_to_type(cmd) {
            Some(t) => r.len() == 1 && (r[0] matches LunaAction::Type { text } && text@ == t),
            None => r.len() == 0,
        }
    } else if contains_text(lower, "scroll"@) {
        r.len() == 1 && (r[0] matches LunaAction::Scroll { direction, amount } && amount == 3 && direction@ == (
        if contains_text(lower, "up"@) {
            "up"@
        } else {
            "down"@
        }))
    } else {
        r.len() == 0
    }
}

/// A command that does not say `click` but says `type` or `enter` (in
/// any case) is a typing command: when it gives a text to type (the first
/// quoted text, else what follows `type`), the plan is exactly typing that
/// text; when it gives none, the plan is empty.
pub proof fn lemma_typing_command_plan(cmd: Seq<char>, els: Seq<ScreenElement>, r: Seq<LunaAction>)
    requires
        planned(cmd, els, r),
        !contains_text(lowercase(cmd), "click"@),
        contains_text(lowercase(cmd), "type"@) || contains_text(lowercase(cmd), "enter"@),
    ensures
        match text_to_type(cmd) {
            Some(t) => r.len() == 1 && (r[0] matches LunaAction::Type { text } && text@ == t),
            None => r.len() == 0,
        },
        quoted_text(cmd) matches Some(q) ==> r.len() == 1 && (r[0] matches LunaAction::Type { text } && text@ == q),
{
}

/// The actions the command `command` asks for on `elements`.
pub fn plan_actions_for(command: &str, elements: &Vec<ScreenElement>) -> (r: Vec<LunaAction>)
    requires
        forall|i: int| 0 <= i < elements.len() ==> center_fits(#[trigger] elements@[i].bounds),
    ensures
        planned(command@, elements@, r@),
{
    let lower = to_lowercase(command);
    let mut actions: Vec<LunaAction> = Vec::new();
    if str_contains(lower.as_str(), "click") {
        if let Some(i) = find_clickable_element(lower.as_str(), elements) {
            let b = elements[i].bounds;
            assert(center_fits(elements@[i as int].bounds));
            let x = (b.x as i64 + half_of(b.width)) as i32;
            let y = (b.y as i64 + half_of(b.height)) as i32;
            actions.push(LunaAction::Click { x, y });
            assert(actions@[0] matches LunaAction::Click { x: cx, y: cy } && (cx as int, cy as int) == center(elements@[i as int].bounds));
            assert(clickable_index(lowercase(command@), elements@) == Some(i as int));
            assert(actions@.len() == 1);
        } else {
            assert(clickable_index(lowercase(command@), elements@) is None);
        }
        assert(contains_text(lowercase(command@), "click"@));
        assert(planned(command@, elements@, actions@));
    } else if str_contains(lower.as_str(), "type") || str_contains(lower.as_str(), "enter") {
        if let Some(text) = extract_text_from_command(command) {
            let ghost tv = text@;
            actions.push(LunaAction::Type { text });
            assert(actions@[0] matches LunaAction::Type { text: t } && t@ == tv);
        }
    } else if str_contains(lower.as_str(), "scroll") {
        let direction = if str_contains(lower.as_str(), "up") {
            String::from_str("up")
        } else {
            String::from_str("down")
        };
        let ghost dv = direction@;
        actions.push(LunaAction::Scroll { direction, amount: 3 });
        assert(actions@[0] matches LunaAction::Scroll { direction: d, amount: a } && a == 3 && d@ == dv);
    }
    actions
}

/// The mean of the confidences of `els`, rounded down; 0 when there are
/// none.
pub open spec fn mean_confidence(els: Seq<ScreenElement>) -> int {
    if els.len() == 0 {
        0
    } else {
        confidence_sum(els) / els.len() as int
    }
}

/// The sum of the confidences of `els`.
pub open spec fn confidence_sum(els: Seq<ScreenElement>) -> int
    decreases els.len(),
{
    if els.len() == 0 {
        0
    } else {
        confidence_sum(els.drop_last()) + els.last().confidence
    }
}

proof fn lemma_confidence_sum_bound(els: Seq<ScreenElement>)
    ensures
        0 <= confidence_sum(els) <= els.len() * 0xffff_ffff,
    decreases els.len(),
{
    if els.len() > 0 {
        lemma_confidence_sum_bound(els.drop_last());
    }
}

/// The overall confidence of a set of elements: their mean confidence.
pub fn calculate_overall_confidence(elements: &Vec<ScreenElement>) -> (c: u32)
    ensures
        c == mean_confidence(elements@),
{
    if elements.len() == 0 {
        return 0;
    }
    let mut total: u128 = 0;
    let mut k: usize = 0;
    while k < elements.len()
        invariant
            k <= elements.len(),
            total == confidence_sum(elements@.take(k as int)),
        decreases elements.len() - k,
    {
        assert(elements@.take(k + 1).drop_last() =~= elements@.take(k as int));
        proof {
            lemma_confidence_sum_bound(elements@.take(k as int));
            assert(k * 0xffff_ffffu64 <= 0xffff_ffff_ffff_ffff * 0xffff_ffffu64) by (nonlinear_arith)
                requires
                    k <= 0xffff_ffff_ffff_ffffu64,
            ;
        }
        total = total + elements[k].confidence as u128;
        k = k + 1;
    }
    assert(elements@.take(elements.len() as int) =~= elements@);
    proof {
        lemma_confidence_sum_bound(elements@);
        let n = elements.len() as int;
        let t = total as int;
        assert(t / n <= 0xffff_ffff) by (nonlinear_arith)
            requires
                n >= 1,
                0 <= t <= n * 0xffff_ffff,
        ;
    }
    (total / (elements.len() as u128)) as u32
}

/// What one screen analysis found.
pub struct ScreenAnalysis {
    pub elements: Vec<ScreenElement>,
    /// The mean confidence of the elements, in percent.
    pub confidence: u32,
    pub processing_time_ms: u64,
    pub screen_size: (usize, usize),
}

/// Counters of the analyses made.
pub struct AiStats {
    pub images_processed: u64,
    pub elements_detected: u64,
    pub total_processing_time_ms: u64,
}

/// The elements of `els` at least `threshold` percent sure, in order, at
/// most `max` of them.
pub open spec fn kept_elements(els: Seq<ScreenElement>, threshold: u32, max: usize) -> Seq<ScreenElement> {
    let f = els.filter(|e: ScreenElement| e.confidence >= threshold);
    if f.len() > max {
        f.take(max as int)
    } else {
        f
    }
}

/// The elements at least `threshold` percent sure, in order, at most `max`.
pub fn filter_elements(elements: Vec<ScreenElement>, threshold: u32, max: usize) -> (r: Vec<ScreenElement>)
    ensures
        r@ == kept_elements(elements@, threshold, max),
        views(r@) == kept_views(views(elements@), threshold, max),
{
    let ghost all = elements@;
    let ghost pred = |e: ScreenElement| e.confidence >= threshold;
    let mut out: Vec<ScreenElement> = Vec::new();
    let n = elements.len();
    let mut rest = elements;
    let mut k: usize = 0;
    while k < n
        invariant
            n == all.len(),
            k <= all.len(),
            rest@ == all.skip(k as int),
            out@ == all.take(k as int).filter(pred),
            pred == (|e: ScreenElement| e.confidence >= threshold),
        decreases n - k,
    {
        let e = rest.remove(0);
        assert(e == all[k as int]);
        assert(all.take(k + 1).drop_last() =~= all.take(k as int));
        proof {
            all.take(k as int).lemma_filter_push(e, pred);
        }
        assert(all.take(k as int).push(e) =~= all.take(k + 1));
        if e.confidence >= threshold {
            out.push(e);
        }
        assert(rest@ =~= all.skip(k + 1));
        k = k + 1;
    }
    assert(all.take(all.len() as int) =~= all);
    proof {
        lemma_views_filter(all, threshold);
    }
    if out.len() > max {
        let ghost full = out@;
        out.truncate(max);
        assert(views(out@) =~= views(full).take(max as int));
    }
    out
}

impl AiStats {
    /// No analysis made yet.
    pub fn new() -> (s: Self)
        ensures
            s.images_processed == 0,
            s.elements_detected == 0,
            s.total_processing_time_ms == 0,
    {
        AiStats { images_processed: 0, elements_detected: 0, total_processing_time_ms: 0 }
    }
}

/// Screen analysis and action planning with its thresholds and counters.
pub struct AICoordinator {
    confidence_threshold: u32,
    max_elements: usize,
    stats: AiStats,
}

impl AICoordinator {
    /// Elements below this confidence, in percent, are dropped.
    pub closed spec fn threshold(self) -> u32 {
        self.confidence_threshold
    }

    /// At most this many elements are kept.
    pub closed spec fn max_kept(self) -> usize {
        self.max_elements
    }

    /// The counters so far.
    pub closed spec fn counters(self) -> (u64, u64, u64) {
        (self.stats.images_processed, self.stats.elements_detected, self.stats.total_processing_time_ms)
    }

    /// A coordinator that keeps elements at least 60% sure, at most 50.
    pub fn new() -> (c: Self)
        ensures
            c.threshold() == 60,
            c.max_kept() == 50,
            c.counters() == (0u64, 0u64, 0u64),
    {
        AICoordinator { confidence_threshold: 60, max_elements: 50, stats: AiStats::new() }
    }

    /// The counters so far.
    pub fn get_stats(&self) -> (s: &AiStats)
        ensures
            (s.images_processed, s.elements_detected, s.total_processing_time_ms) == self.counters(),
    {
        &self.stats
    }

    /// The actions `command` asks for on the analysed screen.
    pub fn plan_actions(&self, command: &str, analysis: &ScreenAnalysis) -> (r: Vec<LunaAction>)
        requires
            forall|i: int| 0 <= i < analysis.elements.len() ==> center_fits(#[trigger] analysis.elements@[i].bounds),
        ensures
            planned(command@, analysis.elements@, r@),
    {
        plan_actions_for(command, &analysis.elements)
    }
}

/// The RGB colour of a pixel's bytes as `to_rgb8` gives it: the first
/// three bytes, or the gray byte three times for gray pixels.
pub open spec fn rgb_of(p: Seq<u8>) -> (u8, u8, u8) {
    if p.len() >= 3 {
        (p[0], p[1], p[2])
    } else if p.len() >= 1 {
        (p[0], p[0], p[0])
    } else {
        (0, 0, 0)
    }
}

/// The RGB colours of `img`, row by row.
pub open spec fn rgb_pixels(img: &Image) -> Seq<(u8, u8, u8)> {
    Seq::new((img.width * img.height) as nat, |k: int| rgb_of(img.pixel_at(k)))
}

/// The gray level of a colour as `to_luma8` computes it: the sRGB luma
/// `(2126 r + 7152 g + 722 b) / 10000`, rounded down.
pub open spec fn srgb_luma(c: (u8, u8, u8)) -> u8 {
    ((2126 * c.0 + 7152 * c.1 + 722 * c.2) / 10000) as u8
}

/// The brightness of a colour, in thousandths: `299 r + 587 g + 114 b`.
pub open spec fn brightness_milli(c: (u8, u8, u8)) -> int {
    299 * c.0 + 587 * c.1 + 114 * c.2
}

/// How much each channel weighs in the brightness, in thousandths: one
/// more step of red adds 299, of green 587, of blue 114; black is 0 and
/// white 255000.
pub proof fn lemma_brightness_weights(r: u8, g: u8, b: u8)
    ensures
        brightness_milli((r, g, b)) == brightness_milli((0u8, g, b)) + 299 * r,
        brightness_milli((r, g, b)) == brightness_milli((r, 0u8, b)) + 587 * g,
        brightness_milli((r, g, b)) == brightness_milli((r, g, 0u8)) + 114 * b,
        brightness_milli((0u8, 0u8, 0u8)) == 0,
        brightness_milli((255u8, 255u8, 255u8)) == 255000,
{
}

/// The colours of `img`, row by row.
pub fn to_rgb_pixels(img: &Image) -> (v: Vec<(u8, u8, u8)>)
    requires
        img.wf(),
    ensures
        v@ == rgb_pixels(img),
{
    let n = img.width * img.height;
    let c = img.channels;
    let mut v: Vec<(u8, u8, u8)> = Vec::new();
    let mut k: usize = 0;
    while k < n
        invariant
            img.wf(),
            n == img.width * img.height,
            c == img.channels,
            k <= n,
            v@.len() == k,
            forall|q: int| 0 <= q < k ==> #[trigger] v@[q] == rgb_of(img.pixel_at(q)),
        decreases n - k,
    {
        assert((k + 1) * c <= n * c) by (nonlinear_arith)
            requires
                k < n,
        ;
        assert(k * c + c == (k + 1) * c) by (nonlinear_arith);
        let base = k * c;
        let ghost p = img.pixel_at(k as int);
        let px = if c >= 3 {
            (img.data[base], img.data[base + 1], img.data[base + 2])
        } else if c >= 1 {
            (img.data[base], img.data[base], img.data[base])
        } else {
            (0u8, 0u8, 0u8)
        };
        assert(px == rgb_of(p));
        v.push(px);
        k = k + 1;
    }
    assert(v@ =~= rgb_pixels(img));
    v
}

/// The gray level of `(x, y)` in the colours `rgb` of a `w`-wide image.
pub open spec fn gray_px(rgb: Seq<(u8, u8, u8)>, w: int, x: int, y: int) -> int {
    srgb_luma(rgb[y * w + x]) as int
}

/// The horizontal Sobel response at `(x, y)`.
pub open spec fn grad_x(rgb: Seq<(u8, u8, u8)>, w: int, x: int, y: int) -> int {
    gray_px(rgb, w, x + 1, y - 1) + 2 * gray_px(rgb, w, x + 1, y) + gray_px(rgb, w, x + 1, y + 1)
        - gray_px(rgb, w, x - 1, y - 1) - 2 * gray_px(rgb, w, x - 1, y) - gray_px(rgb, w, x - 1, y + 1)
}

/// The vertical Sobel response at `(x, y)`.
pub open spec fn grad_y(rgb: Seq<(u8, u8, u8)>, w: int, x: int, y: int) -> int {
    gray_px(rgb, w, x - 1, y + 1) + 2 * gray_px(rgb, w, x, y + 1) + gray_px(rgb, w, x + 1, y + 1)
        - gray_px(rgb, w, x - 1, y - 1) - 2 * gray_px(rgb, w, x, y - 1) - gray_px(rgb, w, x + 1, y - 1)
}

/// `(x, y)` is an edge: its Sobel gradient is longer than 30.
pub open spec fn is_edge(rgb: Seq<(u8, u8, u8)>, w: int, x: int, y: int) -> bool {
    grad_x(rgb, w, x, y) * grad_x(rgb, w, x, y) + grad_y(rgb, w, x, y) * grad_y(rgb, w, x, y) > 900
}

/// The edge points of row `y` among columns `1 .. x`, left to right.
pub open spec fn row_edges(rgb: Seq<(u8, u8, u8)>, w: int, y: int, x: int) -> Seq<(usize, usize)>
    decreases x,
{
    if x <= 1 {
        Seq::empty()
    } else {
        let prev = row_edges(rgb, w, y, x - 1);
        if is_edge(rgb, w, x - 1, y) {
            prev.push(((x - 1) as usize, y as usize))
        } else {
            prev
        }
    }
}

/// The edge points of rows `1 .. y`, row by row, each row over columns
/// `1 .. w - 1`.
pub open spec fn edges_upto(rgb: Seq<(u8, u8, u8)>, w: int, y: int) -> Seq<(usize, usize)>
    decreases y,
{
    if y <= 1 {
        Seq::empty()
    } else {
        edges_upto(rgb, w, y - 1) + row_edges(rgb, w, y - 1, w - 1)
    }
}

/// The edge points of `img`: its inner pixels whose Sobel gradient on the
/// sRGB luma is longer than 30, row by row.
pub open spec fn screen_edges(img: &Image) -> Seq<(usize, usize)> {
    edges_upto(rgb_pixels(img), img.width as int, img.height - 1)
}

fn luma_of(c: (u8, u8, u8)) -> (g: i64)
    ensures
        g == srgb_luma(c),
        0 <= g <= 255,
{
    let v: u64 = 2126 * (c.0 as u64) + 7152 * (c.1 as u64) + 722 * (c.2 as u64);
    (v / 10000) as i64
}

fn is_edge_at(rgb: &Vec<(u8, u8, u8)>, w: usize, x: usize, y: usize) -> (b: bool)
    requires
        1 <= x,
        x + 1 < w,
        1 <= y,
        (y + 2) * w <= rgb.len(),
    ensures
        b == is_edge(rgb@, w as int, x as int, y as int),
{
    assert((y - 1) * w + w == y * w && y * w + w == (y + 1) * w && (y + 1) * w + w == (y + 2) * w)
        by (nonlinear_arith);
    assert((y + 1) * w + w <= rgb.len());
    let up = (y - 1) * w;
    let mid = y * w;
    let down = mid + w;
    let a = luma_of(rgb[up + x - 1]);
    let b = luma_of(rgb[up + x]);
    let c = luma_of(rgb[up + x + 1]);
    let d = luma_of(rgb[mid + x - 1]);
    let f = luma_of(rgb[mid + x + 1]);
    let g = luma_of(rgb[down + x - 1]);
    let h = luma_of(rgb[down + x]);
    let i = luma_of(rgb[down + x + 1]);
    let gx = c + 2 * f + i - a - 2 * d - g;
    let gy = g + 2 * h + i - a - 2 * b - c;
    assert(0 <= gx * gx <= 1020 * 1020 && 0 <= gy * gy <= 1020 * 1020) by (nonlinear_arith)
        requires
            -1020 <= gx <= 1020,
            -1020 <= gy <= 1020,
    ;
    gx * gx + gy * gy > 900
}

/// The edge points of `img`, row by row: its inner pixels whose Sobel
/// gradient on the sRGB luma is longer than 30.
pub fn detect_edges(img: &Image) -> (edges: Vec<(usize, usize)>)
    requires
        img.wf(),
        img.height >= 1,
        img.height >= 3 ==> img.width >= 1,
    ensures
        edges@ == screen_edges(img),
{
    let rgb = to_rgb_pixels(img);
    let w = img.width;
    let h = img.height;
    let ghost g = rgb@;
    let mut edges: Vec<(usize, usize)> = Vec::new();
    let mut y: usize = 1;
    while y < h - 1
        invariant
            1 <= y,
            h >= 1,
            y <= h - 1 || y == 1,
            h >= 3 ==> w >= 1,
            w == img.width,
            h == img.height,
            g == rgb@,
            rgb@.len() == w * h,
            edges@ == edges_upto(g, w as int, y as int),
        decreases h - y,
    {
        let ghost before = edges@;
        let mut x: usize = 1;
        while x < w - 1
            invariant
                1 <= x,
                1 <= y,
                y < h - 1,
                w >= 1,
                x <= w - 1 || x == 1,
                w == img.width,
                h == img.height,
                g == rgb@,
                rgb@.len() == w * h,
                edges@ == before + row_edges(g, w as int, y as int, x as int),
            decreases w - x,
        {
            assert((y + 2) * w <= w * h) by (nonlinear_arith)
                requires
                    y + 2 <= h,
            ;
            if is_edge_at(&rgb, w, x, y) {
                edges.push((x, y));
                assert(edges@ =~= before + row_edges(g, w as int, y as int, x + 1));
            } else {
                assert(edges@ =~= before + row_edges(g, w as int, y as int, x + 1));
            }
            x = x + 1;
        }
        proof {
            if w < 2 {
                assert(row_edges(g, w as int, y as int, w - 1) == Seq::<(usize, usize)>::empty());
                assert(row_edges(g, w as int, y as int, 1) == Seq::<(usize, usize)>::empty());
            }
        }
        assert(edges@ == edges_upto(g, w as int, y + 1));
        y = y + 1;
    }
    edges
}

/// The brightness, in thousandths, summed over row `y` of a `w`-wide image
/// for the columns `x0 .. x1`.
pub open spec fn row_brightness(rgb: Seq<(u8, u8, u8)>, w: int, y: int, x0: int, x1: int) -> int
    decreases x1 - x0,
{
    if x1 <= x0 {
        0
    } else {
        row_brightness(rgb, w, y, x0, x1 - 1) + brightness_milli(rgb[y * w + x1 - 1])
    }
}

/// The brightness, in thousandths, summed over rows `y0 .. y1` and columns
/// `x0 .. x1` of a `w`-wide image.
pub open spec fn region_brightness(rgb: Seq<(u8, u8, u8)>, w: int, x0: int, x1: int, y0: int, y1: int) -> int
    decreases y1 - y0,
{
    if y1 <= y0 {
        0
    } else {
        region_brightness(rgb, w, x0, x1, y0, y1 - 1) + row_brightness(rgb, w, y1 - 1, x0, x1)
    }
}

/// The part of `r` inside a `w` x `h` image, as `(x0, x1, y0, y1)`.
pub open spec fn clipped(r: ElementBounds, w: int, h: int) -> (int, int, int, int) {
    let x1 = if r.x + r.width < w { r.x + r.width } else { w };
    let y1 = if r.y + r.height < h { r.y + r.height } else { h };
    (r.x as int, x1, r.y as int, y1)
}

/// The number of pixels of `r` inside a `w` x `h` image.
pub open spec fn clipped_count(r: ElementBounds, w: int, h: int) -> int {
    let c = clipped(r, w, h);
    if c.1 > c.0 && c.3 > c.2 {
        (c.1 - c.0) * (c.3 - c.2)
    } else {
        0
    }
}

/// The summed brightness, in thousandths, of the pixels of `r` inside the
/// image.
pub open spec fn rect_brightness(rgb: Seq<(u8, u8, u8)>, w: int, h: int, r: ElementBounds) -> int {
    let c = clipped(r, w, h);
    region_brightness(rgb, w, c.0, c.1, c.2, c.3)
}

proof fn lemma_row_brightness_bound(rgb: Seq<(u8, u8, u8)>, w: int, y: int, x0: int, x1: int)
    ensures
        0 <= row_brightness(rgb, w, y, x0, x1) <= 255000 * (if x1 > x0 { x1 - x0 } else { 0 }),
    decreases x1 - x0,
{
    if x1 > x0 {
        lemma_row_brightness_bound(rgb, w, y, x0, x1 - 1);
    }
}

proof fn lemma_region_brightness_bound(rgb: Seq<(u8, u8, u8)>, w: int, x0: int, x1: int, y0: int, y1: int)
    requires
        x0 <= x1,
    ensures
        0 <= region_brightness(rgb, w, x0, x1, y0, y1) <= 255000 * (x1 - x0) * (if y1 > y0 { y1 - y0 } else { 0 }),
    decreases y1 - y0,
{
    if y1 > y0 {
        lemma_region_brightness_bound(rgb, w, x0, x1, y0, y1 - 1);
        lemma_row_brightness_bound(rgb, w, y1 - 1, x0, x1);
        let a = 255000 * (x1 - x0);
        let n = y1 - 1 - y0;
        assert(a * (if y1 - 1 > y0 { n } else { 0 }) + a == a * (y1 - y0)) by (nonlinear_arith)
            requires
                n == y1 - 1 - y0,
                y1 > y0,
        ;
    }
}

proof fn lemma_uniform_row(rgb: Seq<(u8, u8, u8)>, w: int, h: int, y: int, x0: int, x1: int, c: (u8, u8, u8))
    requires
        rgb.len() == w * h,
        forall|k: int| 0 <= k < rgb.len() ==> rgb[k] == c,
        0 <= y < h,
        0 <= x0,
        x1 <= w,
    ensures
        row_brightness(rgb, w, y, x0, x1) == (if x1 > x0 { x1 - x0 } else { 0 }) * (299 * c.0 + 587 * c.1 + 114 * c.2),
    decreases x1 - x0,
{
    if x1 > x0 {
        lemma_uniform_row(rgb, w, h, y, x0, x1 - 1, c);
        assert(y * w + x1 - 1 < w * h) by (nonlinear_arith)
            requires
                0 <= y < h,
                0 <= x1 - 1 < w,
        ;
        assert(0 <= y * w + x1 - 1) by (nonlinear_arith)
            requires
                0 <= y,
                0 <= x1 - 1,
                0 <= w,
        ;
        let b = 299 * c.0 + 587 * c.1 + 114 * c.2;
        assert((if x1 - 1 > x0 { x1 - 1 - x0 } else { 0 }) * b + b == (x1 - x0) * b) by (nonlinear_arith)
            requires
                x1 > x0,
        ;
    }
}

proof fn lemma_uniform_region(
    rgb: Seq<(u8, u8, u8)>,
    w: int,
    h: int,
    x0: int,
    x1: int,
    y0: int,
    y1: int,
    c: (u8, u8, u8),
)
    requires
        rgb.len() == w * h,
        forall|k: int| 0 <= k < rgb.len() ==> rgb[k] == c,
        0 <= x0 < x1 <= w,
        0 <= y0,
        y1 <= h,
    ensures
        region_brightness(rgb, w, x0, x1, y0, y1) == (x1 - x0) * (if y1 > y0 { y1 - y0 } else { 0 }) * (299 * c.0 + 587
            * c.1 + 114 * c.2),
    decreases y1 - y0,
{
    if y1 > y0 {
        lemma_uniform_region(rgb, w, h, x0, x1, y0, y1 - 1, c);
        lemma_uniform_row(rgb, w, h, y1 - 1, x0, x1, c);
        let b = 299 * c.0 + 587 * c.1 + 114 * c.2;
        let n = x1 - x0;
        assert(n * (if y1 - 1 > y0 { y1 - 1 - y0 } else { 0 }) * b + n * b == n * (y1 - y0) * b) by (nonlinear_arith)
            requires
                y1 > y0,
        ;
        assert(region_brightness(rgb, w, x0, x1, y0, y1) == region_brightness(rgb, w, x0, x1, y0, y1 - 1)
            + row_brightness(rgb, w, y1 - 1, x0, x1));
        assert(row_brightness(rgb, w, y1 - 1, x0, x1) == n * b);
    } else {
        let b = 299 * c.0 + 587 * c.1 + 114 * c.2;
        assert((x1 - x0) * 0 * b == 0) by (nonlinear_arith);
    }
}

/// On an image of one colour `c`, a rectangle's summed brightness is its
/// pixel count inside the image times `299 r + 587 g + 114 b`: the
/// brightness the classifier compares is that colour's, red weighing 299,
/// green 587 and blue 114 thousandths.
pub proof fn lemma_uniform_rect_brightness(rgb: Seq<(u8, u8, u8)>, w: int, h: int, r: ElementBounds, c: (u8, u8, u8))
    requires
        rgb.len() == w * h,
        0 <= w,
        0 <= h,
        forall|k: int| 0 <= k < rgb.len() ==> rgb[k] == c,
        r.x >= 0,
        r.y >= 0,
        r.width >= 0,
        r.height >= 0,
    ensures
        rect_brightness(rgb, w, h, r) == clipped_count(r, w, h) * (299 * c.0 + 587 * c.1 + 114 * c.2),
{
    let k = clipped(r, w, h);
    if k.1 > k.0 && k.3 > k.2 {
        lemma_uniform_region(rgb, w, h, k.0, k.1, k.2, k.3, c);
    } else if k.1 > k.0 {
        lemma_uniform_region(rgb, w, h, k.0, k.1, k.2, k.3, c);
    } else {
        lemma_region_zero_width(rgb, w, k.0, k.1, k.2, k.3);
    }
}

proof fn lemma_region_zero_width(rgb: Seq<(u8, u8, u8)>, w: int, x0: int, x1: int, y0: int, y1: int)
    requires
        x1 <= x0,
    ensures
        region_brightness(rgb, w, x0, x1, y0, y1) == 0,
    decreases y1 - y0,
{
    if y1 > y0 {
        lemma_region_zero_width(rgb, w, x0, x1, y0, y1 - 1);
    }
}

/// The summed brightness of the part of `r` inside the image whose
/// colours are `rgb`, `w` x `h`, with the number of pixels summed.
pub fn region_brightness_sum(rgb: &Vec<(u8, u8, u8)>, w: usize, h: usize, r: ElementBounds) -> (res: (u128, usize))
    requires
        rgb@.len() == w * h,
        r.x >= 0,
        r.y >= 0,
        r.width >= 0,
        r.height >= 0,
        r.x + r.width <= i32::MAX,
        r.y + r.height <= i32::MAX,
    ensures
        res.0 == rect_brightness(rgb@, w as int, h as int, r),
        res.1 == clipped_count(r, w as int, h as int),
{
    let ghost c = clipped(r, w as int, h as int);
    let xe = (r.x + r.width) as usize;
    let ye = (r.y + r.height) as usize;
    let x1 = if xe < w { xe } else { w };
    let y1 = if ye < h { ye } else { h };
    let x0 = r.x as usize;
    let y0 = r.y as usize;
    if x1 <= x0 || y1 <= y0 {
        proof {
            if x1 <= x0 {
                assert forall|yy: int| #![auto] row_brightness(rgb@, w as int, yy, x0 as int, x1 as int) == 0 by {}
                lemma_zero_rows(rgb@, w as int, x0 as int, x1 as int, y0 as int, y1 as int);
            }
        }
        return (0, 0);
    }
    let mut total: u128 = 0;
    let mut y = y0;
    while y < y1
        invariant
            rgb@.len() == w * h,
            x0 < x1 <= w,
            y0 <= y <= y1 <= h,
            total == region_brightness(rgb@, w as int, x0 as int, x1 as int, y0 as int, y as int),
        decreases y1 - y,
    {
        let mut row: u128 = 0;
        let mut x = x0;
        proof {
            lemma_region_brightness_bound(rgb@, w as int, x0 as int, x1 as int, y0 as int, y as int);
        }
        while x < x1
            invariant
                rgb@.len() == w * h,
                x0 <= x <= x1 <= w,
                y0 <= y < y1 <= h,
                row == row_brightness(rgb@, w as int, y as int, x0 as int, x as int),
            decreases x1 - x,
        {
            proof {
                lemma_row_brightness_bound(rgb@, w as int, y as int, x0 as int, x as int);
            }
            assert(y * w + x < w * h) by (nonlinear_arith)
                requires
                    y < h,
                    x < w,
            ;
            assert(w * h == rgb.len());
            let idx: usize = y * w + x;
            let px = rgb[idx];
            let b: u128 = 299 * (px.0 as u128) + 587 * (px.1 as u128) + 114 * (px.2 as u128);
            assert(255000 * (x - x0) <= 255000 * 0xffff_ffff_ffff_ffffu128) by (nonlinear_arith)
                requires
                    x - x0 <= 0xffff_ffff_ffff_ffffu128,
            ;
            row = row + b;
            x = x + 1;
        }
        proof {
            lemma_row_brightness_bound(rgb@, w as int, y as int, x0 as int, x1 as int);
            assert(w * h == rgb.len());
            let a = 255000 * (x1 - x0);
            assert(a * (y - y0) + a <= 255000 * (w * h)) by (nonlinear_arith)
                requires
                    a == 255000 * (x1 - x0),
                    0 <= x1 - x0 <= w,
                    0 <= y - y0,
                    y + 1 <= h,
                    y0 >= 0,
            ;
            assert(255000 * (w * h) <= 255000 * 0xffff_ffff_ffff_ffffu128) by (nonlinear_arith)
                requires
                    w * h <= 0xffff_ffff_ffff_ffffu128,
            ;
        }
        total = total + row;
        y = y + 1;
    }
    assert((x1 - x0) * (y1 - y0) <= w * h) by (nonlinear_arith)
        requires
            0 <= x1 - x0 <= w,
            0 <= y1 - y0 <= h,
    ;
    assert(w * h == rgb.len());
    (total, (x1 - x0) * (y1 - y0))
}

proof fn lemma_zero_rows(rgb: Seq<(u8, u8, u8)>, w: int, x0: int, x1: int, y0: int, y1: int)
    requires
        x1 <= x0,
    ensures
        region_brightness(rgb, w, x0, x1, y0, y1) == 0,
    decreases y1 - y0,
{
    if y1 > y0 {
        lemma_zero_rows(rgb, w, x0, x1, y0, y1 - 1);
    }
}

/// The summed brightness `sum` over `count` pixels averages at least
/// `level`.
pub open spec fn bright_at_least(sum: int, count: int, level: int) -> bool {
    count > 0 && sum >= level * 1000 * count
}

/// The rectangle `w` x `h` of summed brightness `sum` over `count` pixels
/// looks like a button: 1.5 to 5 times as wide as high, 800 to 8000
/// pixels, brightness at least 180.
pub open spec fn fits_button(w: int, h: int, sum: int, count: int) -> bool {
    2 * w >= 3 * h && w <= 5 * h && 800 <= w * h <= 8000 && bright_at_least(sum, count, 180)
}

/// Looks like a text field: 3 to 10 times as wide as high, 1500 to 15000
/// pixels, brightness at least 200.
pub open spec fn fits_textfield(w: int, h: int, sum: int, count: int) -> bool {
    w >= 3 * h && w <= 10 * h && 1500 <= w * h <= 15000 && bright_at_least(sum, count, 200)
}

/// Looks like an icon: 0.8 to 1.2 times as wide as high, 100 to 2000
/// pixels.
pub open spec fn fits_icon(w: int, h: int) -> bool {
    5 * w >= 4 * h && 5 * w <= 6 * h && 100 <= w * h <= 2000
}

/// The kind of a rectangle, the rules tried in the order button, text
/// field, icon; a larger rectangle matching none is a plain element.
pub open spec fn element_kind(w: int, h: int, sum: int, count: int) -> Option<Seq<char>> {
    if fits_button(w, h, sum, count) {
        Some("button"@)
    } else if fits_textfield(w, h, sum, count) {
        Some("textfield"@)
    } else if fits_icon(w, h) {
        Some("icon"@)
    } else if w * h > 500 {
        Some("element"@)
    } else {
        None
    }
}

/// The confidence, in percent, for a rectangle of the kind `kind`: 50,
/// raised by 30 for a button or text field and by 40 for an icon that
/// meets its kind's shape, lowered by 10 for other kinds and by 20 for
/// areas under 100 or over 50000, kept within 0 and 100.
pub open spec fn kind_confidence(kind: Seq<char>, w: int, h: int) -> int {
    let area = w * h;
    let base = if kind == "button"@ {
        if 2 * w >= 3 * h && w <= 5 * h && 800 <= area <= 8000 {
            80int
        } else {
            50int
        }
    } else if kind == "textfield"@ {
        if w > 3 * h && 1500 <= area <= 15000 {
            80int
        } else {
            50int
        }
    } else if kind == "icon"@ {
        if 5 * w >= 4 * h && 5 * w <= 6 * h && area < 2000 {
            90int
        } else {
            50int
        }
    } else {
        40int
    };
    let adjusted = if area < 100 || area > 50000 {
        base - 20
    } else {
        base
    };
    if adjusted < 0 {
        0
    } else if adjusted > 100 {
        100
    } else {
        adjusted
    }
}

/// The confidence, in percent, that `r` is an element of the kind `kind`.
pub fn calculate_confidence(r: ElementBounds, kind: &str) -> (c: u32)
    requires
        r.width >= 0,
        r.height >= 0,
        r.width * r.height <= i32::MAX,
    ensures
        c == kind_confidence(kind@, r.width as int, r.height as int),
{
    let w = r.width as i64;
    let h = r.height as i64;
    let area = w * h;
    let mut c: i64 = if str_eq(kind, "button") {
        if 2 * w >= 3 * h && w <= 5 * h && 800 <= area && area <= 8000 {
            80
        } else {
            50
        }
    } else if str_eq(kind, "textfield") {
        if w > 3 * h && 1500 <= area && area <= 15000 {
            80
        } else {
            50
        }
    } else if str_eq(kind, "icon") {
        if 5 * w >= 4 * h && 5 * w <= 6 * h && area < 2000 {
            90
        } else {
            50
        }
    } else {
        40
    };
    if area < 100 || area > 50000 {
        c = c - 20;
    }
    if c < 0 {
        0
    } else if c > 100 {
        100
    } else {
        c as u32
    }
}

/// The attributes of an element of the kind `kind` covering `area`
/// pixels: its area, and whether it is clickable or editable.
pub open spec fn kind_attributes(kind: Seq<char>, area: int) -> Seq<(Seq<char>, Seq<char>)> {
    let base = seq![("area"@, crate::text::decimal_i32(area as i32))];
    if kind == "button"@ || kind == "icon"@ {
        base.push(("clickable"@, "true"@))
    } else if kind == "textfield"@ {
        base.push(("editable"@, "true"@))
    } else {
        base
    }
}

/// The attributes of `e` as character sequences.
pub open spec fn attributes_view(e: ScreenElement) -> Seq<(Seq<char>, Seq<char>)> {
    e.attributes@.map_values(|a: (String, String)| (a.0@, a.1@))
}

/// The attributes of a rectangle `r` classified as `kind`.
pub fn extract_attributes(r: ElementBounds, kind: &str) -> (v: Vec<(String, String)>)
    requires
        r.width * r.height <= i32::MAX,
        r.width * r.height >= i32::MIN,
    ensures
        v@.map_values(|a: (String, String)| (a.0@, a.1@)) == kind_attributes(kind@, r.width * r.height),
{
    let area = r.width * r.height;
    let mut text = String::new();
    crate::text::append_decimal_i32(&mut text, area);
    let mut v: Vec<(String, String)> = Vec::new();
    v.push((String::from_str("area"), text));
    if str_eq(kind, "button") || str_eq(kind, "icon") {
        v.push((String::from_str("clickable"), String::from_str("true")));
    } else if str_eq(kind, "textfield") {
        v.push((String::from_str("editable"), String::from_str("true")));
    }
    assert(v@.map_values(|a: (String, String)| (a.0@, a.1@)) =~= kind_attributes(kind@, r.width * r.height));
    v
}

/// A rectangle that `classify_element` takes: inside the image's
/// coordinate range, not empty, its area an `i32`.
pub open spec fn classifiable(r: ElementBounds) -> bool {
    &&& r.x >= 0 && r.y >= 0
    &&& r.width > 0 && r.height > 0
    &&& r.x + r.width <= i32::MAX && r.y + r.height <= i32::MAX
    &&& r.width * r.height <= i32::MAX
}

/// `e` is what classifying `r` in the image whose colours are `rgb`,
/// `w` x `h`, gives for the kind `kind`.
pub open spec fn classified_as(e: ScreenElement, r: ElementBounds, kind: Seq<char>) -> bool {
    &&& e.element_type@ == kind
    &&& e.bounds == r
    &&& e.text is None
    &&& if kind == "element"@ {
        e.confidence == 30 && e.attributes@.len() == 0
    } else {
        e.confidence == kind_confidence(kind, r.width as int, r.height as int) && attributes_view(e)
            == kind_attributes(kind, r.width * r.height)
    }
}

/// The UI element the rectangle `r` of the image whose colours are `rgb`
/// (`w` x `h`) shows, by its shape and brightness, if any.
pub fn classify_element(rgb: &Vec<(u8, u8, u8)>, w: usize, h: usize, r: ElementBounds) -> (e: Option<ScreenElement>)
    requires
        rgb@.len() == w * h,
        classifiable(r),
    ensures
        match element_kind(
            r.width as int,
            r.height as int,
            rect_brightness(rgb@, w as int, h as int, r),
            clipped_count(r, w as int, h as int),
        ) {
            Some(kind) => e matches Some(el) && classified_as(el, r, kind),
            None => e is None,
        },
{
    let (sum, count) = region_brightness_sum(rgb, w, h, r);
    let rw = r.width as u128;
    let rh = r.height as u128;
    let area = r.width * r.height;
    assert(rw * rh <= 0x7fff_ffff);
    let cnt = count as u128;
    assert(cnt * 200000 <= 0xffff_ffff_ffff_ffffu128 * 200000) by (nonlinear_arith)
        requires
            cnt <= 0xffff_ffff_ffff_ffffu128,
    ;
    let bright180 = count > 0 && sum >= 180000 * cnt;
    let bright200 = count > 0 && sum >= 200000 * cnt;
    let kind: &str = if 2 * rw >= 3 * rh && rw <= 5 * rh && 800 <= rw * rh && rw * rh <= 8000 && bright180 {
        "button"
    } else if rw >= 3 * rh && rw <= 10 * rh && 1500 <= rw * rh && rw * rh <= 15000 && bright200 {
        "textfield"
    } else if 5 * rw >= 4 * rh && 5 * rw <= 6 * rh && 100 <= rw * rh && rw * rh <= 2000 {
        "icon"
    } else if area > 500 {
        return Some(
            ScreenElement {
                element_type: String::from_str("element"),
                bounds: r,
                confidence: 30,
                text: None,
                attributes: Vec::new(),
            },
        );
    } else {
        return None;
    };
    assert(element_kind(r.width as int, r.height as int, sum as int, count as int) == Some(kind@));
    proof {
        reveal_strlit("button");
        reveal_strlit("textfield");
        reveal_strlit("icon");
        reveal_strlit("element");
        assert(kind@ == "button"@ || kind@ == "textfield"@ || kind@ == "icon"@);
        assert(kind@.len() != 7);
        assert(kind@ != "element"@);
    }
    let confidence = calculate_confidence(r, kind);
    let attributes = extract_attributes(r, kind);
    Some(ScreenElement { element_type: String::from_str(kind), bounds: r, confidence, text: None, attributes })
}

/// Two points at most 3 apart in each direction.
pub open spec fn near(p: (usize, usize), q: (usize, usize)) -> bool {
    -3 <= p.0 - q.0 <= 3 && -3 <= p.1 - q.1 <= 3
}

/// `path` is a walk over the points `e`: valid indices, each of a point
/// still free (`free`), each point near the one before.
pub open spec fn is_walk(e: Seq<(usize, usize)>, free: Seq<bool>, path: Seq<int>) -> bool
    decreases path.len(),
{
    if path.len() == 0 {
        false
    } else {
        let j = path.last();
        &&& 0 <= j < e.len()
        &&& j < free.len() && free[j]
        &&& (path.len() == 1 || (is_walk(e, free, path.drop_last()) && near(
            e[path[path.len() - 2]],
            e[j],
        )))
    }
}

/// Point `t` can be reached from point `s` through free points.
pub open spec fn reachable(e: Seq<(usize, usize)>, free: Seq<bool>, s: int, t: int) -> bool {
    exists|path: Seq<int>| #[trigger] is_walk(e, free, path) && path[0] == s && path.last() == t
}

/// The indices newly set in `v` compared with `v0`, counted below `k`.
pub open spec fn count_new(v0: Seq<bool>, v: Seq<bool>, k: int) -> int
    decreases k,
{
    if k <= 0 {
        0
    } else {
        count_new(v0, v, k - 1) + if v[k - 1] && !v0[k - 1] {
            1int
        } else {
            0
        }
    }
}

/// The number of indices below `k` not set in `v`.
pub open spec fn count_free(v: Seq<bool>, k: int) -> int
    decreases k,
{
    if k <= 0 {
        0
    } else {
        count_free(v, k - 1) + if !v[k - 1] {
            1int
        } else {
            0
        }
    }
}

/// The box `(min x, max x, min y, max y)` is the bounding box of the
/// points `e[i]` with `inside(i)`.
pub open spec fn is_bbox_of(e: Seq<(usize, usize)>, v0: Seq<bool>, v: Seq<bool>, b: (usize, usize, usize, usize)) -> bool {
    &&& forall|i: int|
        0 <= i < e.len() && v[i] && !v0[i] ==> b.0 <= (#[trigger] e[i]).0 <= b.1 && b.2 <= e[i].1 <= b.3
    &&& exists|i: int| 0 <= i < e.len() && v[i] && !v0[i] && (#[trigger] e[i]).0 == b.0
    &&& exists|i: int| 0 <= i < e.len() && v[i] && !v0[i] && (#[trigger] e[i]).0 == b.1
    &&& exists|i: int| 0 <= i < e.len() && v[i] && !v0[i] && (#[trigger] e[i]).1 == b.2
    &&& exists|i: int| 0 <= i < e.len() && v[i] && !v0[i] && (#[trigger] e[i]).1 == b.3
}

/// The free points, as a mask: those not set in `v0`.
pub open spec fn free_of(v0: Seq<bool>) -> Seq<bool> {
    v0.map_values(|b: bool| !b)
}

/// No point occurs twice in `e`.
pub open spec fn points_distinct(e: Seq<(usize, usize)>) -> bool {
    forall|i: int, j: int| 0 <= i < j < e.len() ==> e[i] != e[j]
}

proof fn lemma_count_new_zero(v0: Seq<bool>, k: int)
    ensures
        count_new(v0, v0, k) == 0,
    decreases k,
{
    if k > 0 {
        lemma_count_new_zero(v0, k - 1);
    }
}

proof fn lemma_count_new_update(v0: Seq<bool>, v: Seq<bool>, j: int, k: int)
    requires
        v0.len() == v.len(),
        0 <= j < v.len(),
        !v[j],
        !v0[j],
        0 <= k <= v.len(),
    ensures
        count_new(v0, v.update(j, true), k) == count_new(v0, v, k) + if j < k {
            1int
        } else {
            0
        },
        count_free(v.update(j, true), k) == count_free(v, k) - if j < k {
            1int
        } else {
            0
        },
    decreases k,
{
    if k > 0 {
        lemma_count_new_update(v0, v, j, k - 1);
    }
}

proof fn lemma_count_bounds(v0: Seq<bool>, v: Seq<bool>, k: int)
    requires
        0 <= k <= v.len(),
        v.len() == v0.len(),
    ensures
        0 <= count_new(v0, v, k) <= k,
        0 <= count_free(v, k) <= k,
    decreases k,
{
    if k > 0 {
        lemma_count_bounds(v0, v, k - 1);
    }
}

proof fn lemma_walk_extend(e: Seq<(usize, usize)>, free: Seq<bool>, path: Seq<int>, j: int)
    requires
        is_walk(e, free, path),
        0 <= j < e.len(),
        j < free.len(),
        free[j],
        near(e[path.last()], e[j]),
    ensures
        is_walk(e, free, path.push(j)),
        path.push(j)[0] == path[0],
        path.push(j).last() == j,
{
    assert(path.push(j).drop_last() =~= path);
}

proof fn lemma_walk_ends(e: Seq<(usize, usize)>, free: Seq<bool>, path: Seq<int>)
    requires
        is_walk(e, free, path),
    ensures
        0 <= path.last() < e.len(),
        path.last() < free.len(),
        free[path.last()],
        0 <= path[0] < e.len(),
        free[path[0]],
    decreases path.len(),
{
    if path.len() > 1 {
        lemma_walk_ends(e, free, path.drop_last());
    }
}

/// A set of points that holds the start of a walk and every free point
/// near one of its points holds the walk's end.
proof fn lemma_closed_holds_walk(e: Seq<(usize, usize)>, free: Seq<bool>, inside: spec_fn(int) -> bool, path: Seq<int>)
    requires
        is_walk(e, free, path),
        inside(path[0]),
        forall|i: int, j: int|
            0 <= i < e.len() && 0 <= j < e.len() && j < free.len() && #[trigger] inside(i) && free[j] && near(e[i], e[j])
                ==> #[trigger] inside(j),
    ensures
        inside(path.last()),
    decreases path.len(),
{
    if path.len() > 1 {
        lemma_closed_holds_walk(e, free, inside, path.drop_last());
        lemma_walk_ends(e, free, path.drop_last());
        lemma_walk_ends(e, free, path);
        let i = path[path.len() - 2];
        assert(path.drop_last().last() == i);
        assert(inside(i));
    }
}

proof fn lemma_bbox_single(e: Seq<(usize, usize)>, v0: Seq<bool>, j: int)
    requires
        0 <= j < e.len(),
        v0.len() == e.len(),
        !v0[j],
    ensures
        is_bbox_of(e, v0, v0.update(j, true), (e[j].0, e[j].0, e[j].1, e[j].1)),
{
    let v = v0.update(j, true);
    assert forall|i: int| 0 <= i < e.len() && v[i] && !v0[i] implies i == j by {
        if i != j {
            assert(v[i] == v0[i]);
        }
    }
    assert(v[j] && !v0[j] && e[j].0 == e[j].0);
}

proof fn lemma_bbox_add(
    e: Seq<(usize, usize)>,
    v0: Seq<bool>,
    v: Seq<bool>,
    j: int,
    b: (usize, usize, usize, usize),
    c: (usize, usize, usize, usize),
)
    requires
        0 <= j < e.len(),
        v0.len() == e.len(),
        v.len() == e.len(),
        !v0[j],
        !v[j],
        is_bbox_of(e, v0, v, b),
        c.0 == (if e[j].0 < b.0 { e[j].0 } else { b.0 }),
        c.1 == (if e[j].0 > b.1 { e[j].0 } else { b.1 }),
        c.2 == (if e[j].1 < b.2 { e[j].1 } else { b.2 }),
        c.3 == (if e[j].1 > b.3 { e[j].1 } else { b.3 }),
    ensures
        is_bbox_of(e, v0, v.update(j, true), c),
{
    let u = v.update(j, true);
    assert forall|i: int| 0 <= i < e.len() && u[i] && !v0[i] implies c.0 <= (#[trigger] e[i]).0 <= c.1 && c.2
        <= e[i].1 <= c.3 by {
        if i != j {
            assert(v[i]);
        }
    }
    let w0 = choose|i: int| 0 <= i < e.len() && v[i] && !v0[i] && (#[trigger] e[i]).0 == b.0;
    let w1 = choose|i: int| 0 <= i < e.len() && v[i] && !v0[i] && (#[trigger] e[i]).0 == b.1;
    let w2 = choose|i: int| 0 <= i < e.len() && v[i] && !v0[i] && (#[trigger] e[i]).1 == b.2;
    let w3 = choose|i: int| 0 <= i < e.len() && v[i] && !v0[i] && (#[trigger] e[i]).1 == b.3;
    assert(u[w0] && u[w1] && u[w2] && u[w3] && u[j]);
    if e[j].0 < b.0 {
        assert(e[j].0 == c.0);
    } else {
        assert(e[w0].0 == c.0);
    }
    if e[j].0 > b.1 {
        assert(e[j].0 == c.1);
    } else {
        assert(e[w1].0 == c.1);
    }
    if e[j].1 < b.2 {
        assert(e[j].1 == c.2);
    } else {
        assert(e[w2].1 == c.2);
    }
    if e[j].1 > b.3 {
        assert(e[j].1 == c.3);
    } else {
        assert(e[w3].1 == c.3);
    }
}

proof fn lemma_pop_keeps(st: Seq<usize>, q: usize)
    requires
        st.len() > 0,
        st.contains(q),
        q != st.last(),
    ensures
        st.drop_last().contains(q),
{
    let idx = choose|idx: int| 0 <= idx < st.len() && st[idx] == q;
    assert(idx != st.len() - 1);
    assert(st.drop_last()[idx] == q);
}

proof fn lemma_push_keeps(st: Seq<usize>, q: usize, x: usize)
    requires
        st.contains(q),
    ensures
        st.push(x).contains(q),
{
    let idx = choose|idx: int| 0 <= idx < st.len() && st[idx] == q;
    assert(st.push(x)[idx] == q);
}

/// The state of growing a group of edge points: which points are
/// visited, the stack of points still to look at, how many points the
/// group has, and its box `(min x, max x, min y, max y)`.
pub type GrowState = (Seq<bool>, Seq<usize>, int, (usize, usize, usize, usize));

/// `stack` with the points among the first `k` of `e` that are not
/// visited in `vis` and near point `j` pushed, in order.
pub open spec fn pushed_near(e: Seq<(usize, usize)>, vis: Seq<bool>, j: int, stack: Seq<usize>, k: int) -> Seq<usize>
    decreases k,
{
    if k <= 0 {
        stack
    } else {
        let st = pushed_near(e, vis, j, stack, k - 1);
        if !vis[k - 1] && near(e[j], e[k - 1]) {
            st.push((k - 1) as usize)
        } else {
            st
        }
    }
}

/// One step of growing: the last point of the stack is taken off; when it
/// is not visited yet and the group has at most 1000 points, it joins the
/// group, widens the box, and its unvisited near points go on the stack.
pub open spec fn grow_step(e: Seq<(usize, usize)>, st: GrowState) -> GrowState {
    let j = st.1.last() as int;
    let rest = st.1.drop_last();
    if st.0[j] || st.2 > 1000 {
        (st.0, rest, st.2, st.3)
    } else {
        let v = st.0.update(j, true);
        let p = e[j];
        let b = st.3;
        (
            v,
            pushed_near(e, v, j, rest, e.len() as int),
            st.2 + 1,
            (
                if p.0 < b.0 { p.0 } else { b.0 },
                if p.0 > b.1 { p.0 } else { b.1 },
                if p.1 < b.2 { p.1 } else { b.2 },
                if p.1 > b.3 { p.1 } else { b.3 },
            ),
        )
    }
}

/// At most `fuel` steps of growing from `st`, stopping when the stack is
/// empty.
pub open spec fn grow_run(e: Seq<(usize, usize)>, st: GrowState, fuel: nat) -> GrowState
    decreases fuel,
{
    if fuel == 0 || st.1.len() == 0 {
        st
    } else {
        grow_run(e, grow_step(e, st), (fuel - 1) as nat)
    }
}

/// Growing starts from point `s` with the visited points `v0`: the stack
/// holds `s`, the group is empty and the box is that of `s`.
pub open spec fn grow_start(e: Seq<(usize, usize)>, v0: Seq<bool>, s: int) -> GrowState {
    (v0, seq![s as usize], 0, (e[s].0, e[s].0, e[s].1, e[s].1))
}

/// Growing from point `s` with the visited points `v0` runs to an empty
/// stack in some number of steps.
pub open spec fn grow_ends(e: Seq<(usize, usize)>, v0: Seq<bool>, s: int) -> bool {
    exists|f: nat| #[trigger] grow_run(e, grow_start(e, v0, s), f).1.len() == 0
}

/// Where growing from point `s` with the visited points `v0` ends.
pub open spec fn grown(e: Seq<(usize, usize)>, v0: Seq<bool>, s: int) -> GrowState {
    grow_run(e, grow_start(e, v0, s), choose|f: nat| #[trigger] grow_run(e, grow_start(e, v0, s), f).1.len() == 0)
}

/// One more step of a run whose stack is not empty is one more step.
proof fn lemma_run_succ(e: Seq<(usize, usize)>, st: GrowState, f: nat)
    requires
        grow_run(e, st, f).1.len() > 0,
    ensures
        grow_run(e, st, f + 1) == grow_step(e, grow_run(e, st, f)),
    decreases f,
{
    assert(st.1.len() > 0);
    assert(grow_run(e, st, f + 1) == grow_run(e, grow_step(e, st), f));
    if f > 0 {
        assert(grow_run(e, st, f) == grow_run(e, grow_step(e, st), (f - 1) as nat));
        lemma_run_succ(e, grow_step(e, st), (f - 1) as nat);
        assert((f - 1 + 1) as nat == f);
    } else {
        assert(grow_run(e, grow_step(e, st), 0) == grow_step(e, st));
    }
}

/// Once the stack is empty, more steps change nothing.
proof fn lemma_run_stable(e: Seq<(usize, usize)>, st: GrowState, f: nat, g: nat)
    requires
        grow_run(e, st, f).1.len() == 0,
        f <= g,
    ensures
        grow_run(e, st, g) == grow_run(e, st, f),
    decreases f,
{
    if st.1.len() > 0 {
        lemma_run_stable(e, grow_step(e, st), (f - 1) as nat, (g - 1) as nat);
    }
}

/// A run that ends in `f` steps ends where `grown` says.
proof fn lemma_grown_is(e: Seq<(usize, usize)>, v0: Seq<bool>, s: int, f: nat)
    requires
        grow_run(e, grow_start(e, v0, s), f).1.len() == 0,
    ensures
        grow_ends(e, v0, s),
        grown(e, v0, s) == grow_run(e, grow_start(e, v0, s), f),
{
    let st = grow_start(e, v0, s);
    let c = choose|c: nat| #[trigger] grow_run(e, st, c).1.len() == 0;
    if c <= f {
        lemma_run_stable(e, st, c, f);
    } else {
        lemma_run_stable(e, st, f, c);
    }
}

/// Grows the set of edge points connected to `e[s]` through points near
/// each other (at most 3 apart each way) and not yet visited, marking each
/// in `visited`, stopping after 1001 points.  When more than 20 points
/// were marked, gives their bounding box.
pub fn grow_rectangle_from_point(e: &Vec<(usize, usize)>, s: usize, visited: &mut Vec<bool>) -> (r: Option<ElementBounds>)
    requires
        old(visited)@.len() == e@.len(),
        s < e@.len(),
        !old(visited)@[s as int],
        forall|i: int| 0 <= i < e@.len() ==> (#[trigger] e@[i]).0 <= i32::MAX && e@[i].1 <= i32::MAX,
    ensures
        final(visited)@.len() == e@.len(),
        forall|i: int| 0 <= i < e@.len() && old(visited)@[i] ==> #[trigger] final(visited)@[i],
        final(visited)@[s as int],
        forall|i: int|
            0 <= i < e@.len() && #[trigger] final(visited)@[i] && !old(visited)@[i] ==> reachable(
                e@,
                free_of(old(visited)@),
                s as int,
                i,
            ),
        1 <= count_new(old(visited)@, final(visited)@, e@.len() as int) <= 1001,
        count_new(old(visited)@, final(visited)@, e@.len() as int) <= 1000 ==> forall|i: int|
            0 <= i < e@.len() && reachable(e@, free_of(old(visited)@), s as int, i) ==> #[trigger] final(visited)@[i],
        match r {
            Some(b) => count_new(old(visited)@, final(visited)@, e@.len() as int) > 20 && b.x >= 0 && b.y >= 0
                && b.width >= 0 && b.height >= 0 && b.x + b.width <= i32::MAX && b.y + b.height <= i32::MAX && is_bbox_of(
                e@,
                old(visited)@,
                final(visited)@,
                (b.x as usize, (b.x + b.width) as usize, b.y as usize, (b.y + b.height) as usize),
            ),
            None => count_new(old(visited)@, final(visited)@, e@.len() as int) <= 20,
        },
        grow_ends(e@, old(visited)@, s as int),
        final(visited)@ == grown(e@, old(visited)@, s as int).0,
        r is Some <==> grown(e@, old(visited)@, s as int).2 > 20,
        r matches Some(b) ==> bounds_box(b) == grown(e@, old(visited)@, s as int).3,
{
    let n = e.len();
    let ghost v0 = visited@;
    let ghost free = free_of(v0);
    let mut stack: Vec<usize> = Vec::new();
    stack.push(s);
    let (sx, sy) = e[s];
    let mut min_x = sx;
    let mut max_x = sx;
    let mut min_y = sy;
    let mut max_y = sy;
    let mut size: usize = 0;
    let ghost mut steps: nat = 0;
    proof {
        lemma_count_bounds(v0, visited@, n as int);
        assert(count_new(v0, v0, n as int) == 0) by {
            lemma_count_new_zero(v0, n as int);
        }
        let p = seq![s as int];
        assert(p.drop_last() =~= Seq::<int>::empty());
        assert(is_walk(e@, free, p));
    }
    while stack.len() > 0
        invariant
            n == e@.len(),
            visited@.len() == n,
            s < n,
            v0.len() == n,
            free == free_of(v0),
            forall|i: int| 0 <= i < n ==> (#[trigger] e@[i]).0 <= i32::MAX && e@[i].1 <= i32::MAX,
            forall|i: int| 0 <= i < n && v0[i] ==> #[trigger] visited@[i],
            size == count_new(v0, visited@, n as int),
            size <= 1001,
            size == 0 ==> visited@ == v0 && stack@ == seq![s],
            size == 0 ==> min_x == e@[s as int].0 && max_x == e@[s as int].0 && min_y == e@[s as int].1 && max_y
                == e@[s as int].1,
            size >= 1 ==> visited@[s as int],
            forall|i: int| 0 <= i < n && #[trigger] visited@[i] && !v0[i] ==> reachable(e@, free, s as int, i),
            forall|k: int|
                0 <= k < stack@.len() ==> #[trigger] stack@[k] < n && !v0[stack@[k] as int] && reachable(
                    e@,
                    free,
                    s as int,
                    stack@[k] as int,
                ),
            size <= 1000 ==> forall|i: int, j: int|
                0 <= i < n && 0 <= j < n && #[trigger] visited@[i] && !v0[i] && !v0[j] && #[trigger] near(e@[i], e@[j])
                    ==> visited@[j] || stack@.contains(j as usize),
            size >= 1 ==> is_bbox_of(e@, v0, visited@, (min_x, max_x, min_y, max_y)),
            (visited@, stack@, size as int, (min_x, max_x, min_y, max_y)) == grow_run(e@, grow_start(e@, v0, s as int), steps),
        decreases count_free(visited@, n as int), stack@.len(),
    {
        let ghost old_stack = stack@;
        proof {
            lemma_run_succ(e@, grow_start(e@, v0, s as int), steps);
        }
        let ghost cur = grow_run(e@, grow_start(e@, v0, s as int), steps);
        let j = stack.pop().unwrap();
        assert(old_stack.last() == j);
        assert(stack@ =~= old_stack.drop_last());
        proof {
            assert forall|kk: int| 0 <= kk < stack@.len() implies #[trigger] stack@[kk] < n && !v0[stack@[kk] as int]
                && reachable(e@, free, s as int, stack@[kk] as int) by {
                assert(stack@[kk] == old_stack[kk]);
            }
            assert(j < n && !v0[j as int] && reachable(e@, free, s as int, j as int)) by {
                assert(old_stack[old_stack.len() - 1] == j);
            }
        }
        if visited[j] || size > 1000 {
            proof {
                lemma_count_bounds(v0, visited@, n as int);
                if size <= 1000 {
                    assert forall|i: int, q: int|
                        0 <= i < n && 0 <= q < n && #[trigger] visited@[i] && !v0[i] && !v0[q] && #[trigger] near(
                            e@[i],
                            e@[q],
                        ) implies visited@[q] || stack@.contains(q as usize) by {
                        if !visited@[q] {
                            assert(old_stack.contains(q as usize));
                            lemma_pop_keeps(old_stack, q as usize);
                        }
                    }
                }
                steps = steps + 1;
            }
            continue;
        }
        let ghost before = visited@;
        proof {
            lemma_count_new_update(v0, before, j as int, n as int);
        }
        visited.set(j, true);
        size = size + 1;
        proof {
            if size <= 1000 {
                assert forall|i: int, q: int|
                    0 <= i < n && 0 <= q < n && i != j && #[trigger] visited@[i] && !v0[i] && !v0[q] && #[trigger] near(
                        e@[i],
                        e@[q],
                    ) implies visited@[q] || stack@.contains(q as usize) by {
                    assert(before[i]);
                    if !visited@[q] {
                        assert(q != j);
                        assert(old_stack.contains(q as usize));
                        lemma_pop_keeps(old_stack, q as usize);
                    }
                }
            }
        }
        assert(e@[j as int].0 <= i32::MAX && e@[j as int].1 <= i32::MAX);
        let (x, y) = e[j];
        let ghost b_old = (min_x, max_x, min_y, max_y);
        if x < min_x {
            min_x = x;
        }
        if x > max_x {
            max_x = x;
        }
        if y < min_y {
            min_y = y;
        }
        if y > max_y {
            max_y = y;
        }
        proof {
            if size == 1 {
                assert(j == s) by {
                    assert(old_stack == seq![s]);
                }
                assert(before == v0);
                assert(b_old == (x, x, y, y));
                lemma_bbox_single(e@, v0, j as int);
            } else {
                lemma_bbox_add(e@, v0, before, j as int, b_old, (min_x, max_x, min_y, max_y));
            }
        }
        let ghost after = visited@;
        let ghost st0 = stack@;
        assert(st0 == old_stack.drop_last());
        let mut k: usize = 0;
        while k < n
            invariant
                n == e@.len(),
                visited@.len() == n,
                j < n,
                visited@[j as int],
                k <= n,
                forall|q: int| 0 <= q < n && v0[q] ==> #[trigger] visited@[q],
                forall|kk: int|
                    0 <= kk < stack@.len() ==> #[trigger] stack@[kk] < n && !v0[stack@[kk] as int] && reachable(
                        e@,
                        free,
                        s as int,
                        stack@[kk] as int,
                    ),
                reachable(e@, free, s as int, j as int),
                !v0[j as int],
                free == free_of(v0),
                v0.len() == n,
                visited@ == after,
                x == e@[j as int].0,
                y == e@[j as int].1,
                forall|i: int| 0 <= i < n ==> (#[trigger] e@[i]).0 <= i32::MAX && e@[i].1 <= i32::MAX,
                forall|q: int| 0 <= q < k && !visited@[q] && near(e@[j as int], e@[q]) ==> stack@.contains(q as usize),
                stack@ == pushed_near(e@, after, j as int, st0, k as int),
                size <= 1000 ==> forall|i: int, q: int|
                    0 <= i < n && 0 <= q < n && i != j && #[trigger] visited@[i] && !v0[i] && !v0[q] && #[trigger] near(
                        e@[i],
                        e@[q],
                    ) ==> visited@[q] || stack@.contains(q as usize),
            decreases n - k,
        {
            assert(e@[k as int].0 <= i32::MAX && e@[k as int].1 <= i32::MAX);
            let (nx, ny) = e[k];
            let ghost st = stack@;
            if !visited[k] {
                let dx: i64 = (x as i64) - (nx as i64);
                let dy: i64 = (y as i64) - (ny as i64);
                if -3 <= dx && dx <= 3 && -3 <= dy && dy <= 3 {
                    proof {
                        assert(!v0[k as int]);
                        assert(free[k as int] == !v0[k as int]);
                        let p = choose|path: Seq<int>| #[trigger] is_walk(e@, free, path) && path[0] == s && path.last() == j;
                        lemma_walk_extend(e@, free, p, k as int);
                    }
                    stack.push(k);
                    proof {
                        assert(stack@ == st.push(k));
                        assert(stack@[st.len() as int] == k);
                        assert forall|q: usize| #[trigger] st.contains(q) implies stack@.contains(q) by {
                            lemma_push_keeps(st, q, k);
                        }
                        assert forall|kk: int| 0 <= kk < stack@.len() implies #[trigger] stack@[kk] < n && !v0[stack@[kk] as int]
                            && reachable(e@, free, s as int, stack@[kk] as int) by {
                            if kk < st.len() {
                                assert(stack@[kk] == st[kk]);
                            }
                        }
                    }
                }
            }
            k = k + 1;
        }
        proof {
            lemma_count_bounds(v0, visited@, n as int);
            assert(after == cur.0.update(j as int, true));
            steps = steps + 1;
        }
    }
    proof {
        lemma_grown_is(e@, v0, s as int, steps);
        lemma_count_bounds(v0, visited@, n as int);
        if size <= 1000 {
            let inside = |i: int| 0 <= i < n && visited@[i] && !v0[i];
            assert forall|i: int| 0 <= i < n && reachable(e@, free, s as int, i) implies #[trigger] visited@[i] by {
                let p = choose|path: Seq<int>| #[trigger] is_walk(e@, free, path) && path[0] == s && path.last() == i;
                lemma_closed_holds_walk(e@, free, inside, p);
            }
        }
    }
    if size > 20 {
        Some(
            ElementBounds {
                x: min_x as i32,
                y: min_y as i32,
                width: (max_x - min_x) as i32,
                height: (max_y - min_y) as i32,
            },
        )
    } else {
        None
    }
}

/// Every point free.
pub open spec fn all_free(n: nat) -> Seq<bool> {
    Seq::new(n, |i: int| true)
}

/// Points `i` and `j` of `e` are connected through points near each
/// other.
pub open spec fn connected(e: Seq<(usize, usize)>, i: int, j: int) -> bool {
    reachable(e, all_free(e.len()), i, j)
}

/// The number of points connected to point `i`, counted among the first
/// `k`.
pub open spec fn component_count(e: Seq<(usize, usize)>, i: int, k: int) -> int
    decreases k,
{
    if k <= 0 {
        0
    } else {
        component_count(e, i, k - 1) + if connected(e, i, k - 1) {
            1int
        } else {
            0
        }
    }
}

/// No group of connected points has more than 1000 points.
pub open spec fn small_components(e: Seq<(usize, usize)>) -> bool {
    forall|i: int| 0 <= i < e.len() ==> #[trigger] component_count(e, i, e.len() as int) <= 1000
}

/// `b` is `(min x, max x, min y, max y)` of the points connected to `i`.
pub open spec fn is_component_box(e: Seq<(usize, usize)>, i: int, b: (usize, usize, usize, usize)) -> bool {
    &&& forall|j: int|
        0 <= j < e.len() && connected(e, i, j) ==> b.0 <= (#[trigger] e[j]).0 <= b.1 && b.2 <= e[j].1 <= b.3
    &&& exists|j: int| 0 <= j < e.len() && connected(e, i, j) && (#[trigger] e[j]).0 == b.0
    &&& exists|j: int| 0 <= j < e.len() && connected(e, i, j) && (#[trigger] e[j]).0 == b.1
    &&& exists|j: int| 0 <= j < e.len() && connected(e, i, j) && (#[trigger] e[j]).1 == b.2
    &&& exists|j: int| 0 <= j < e.len() && connected(e, i, j) && (#[trigger] e[j]).1 == b.3
}

/// Scanning the edge points `e` of a `w` x `h` image up to point `q`: the
/// points visited so far and the boxes kept.  Each point not yet visited
/// starts a group (see `grown`); the group's box is kept when the group has
/// more than 20 points and the box is plausible for a UI element.
pub open spec fn scan(e: Seq<(usize, usize)>, w: int, h: int, q: int) -> (Seq<bool>, Seq<(usize, usize, usize, usize)>)
    decreases q,
{
    if q <= 0 {
        (Seq::new(e.len(), |i: int| false), Seq::empty())
    } else {
        let prev = scan(e, w, h, q - 1);
        let i = q - 1;
        if prev.0[i] {
            prev
        } else {
            let g = grown(e, prev.0, i);
            (g.0, if g.2 > 20 && plausible_box(g.3, w, h) {
                prev.1.push(g.3)
            } else {
                prev.1
            })
        }
    }
}

/// The box of the points connected to `i`.
pub open spec fn component_box(e: Seq<(usize, usize)>, i: int) -> (usize, usize, usize, usize) {
    choose|b: (usize, usize, usize, usize)| is_component_box(e, i, b)
}

/// A box `(min x, max x, min y, max y)` of a `w` x `h` screen that is a
/// plausible element: at least 20 wide and 10 high, at most half the
/// screen each way.
pub open spec fn plausible_box(b: (usize, usize, usize, usize), w: int, h: int) -> bool {
    let bw = b.1 - b.0;
    let bh = b.3 - b.2;
    bw >= 20 && bh >= 10 && bw <= w / 2 && bh <= h / 2
}

/// The rectangles found among the first `k` points: for each point that
/// is the first of its group and whose group has more than 20 points, the
/// group's box when it is plausible.
pub open spec fn rectangles_upto(e: Seq<(usize, usize)>, w: int, h: int, k: int) -> Seq<(usize, usize, usize, usize)>
    decreases k,
{
    if k <= 0 {
        Seq::empty()
    } else {
        let prev = rectangles_upto(e, w, h, k - 1);
        let i = k - 1;
        if (forall|j: int| 0 <= j < i ==> !#[trigger] connected(e, i, j)) && component_count(e, i, e.len() as int) > 20
            && plausible_box(component_box(e, i), w, h) {
            prev.push(component_box(e, i))
        } else {
            prev
        }
    }
}

/// The box of an element's bounds, `(min x, max x, min y, max y)`.
pub open spec fn bounds_box(r: ElementBounds) -> (usize, usize, usize, usize) {
    (r.x as usize, (r.x + r.width) as usize, r.y as usize, (r.y + r.height) as usize)
}

proof fn lemma_walk_concat(e: Seq<(usize, usize)>, free: Seq<bool>, p: Seq<int>, q: Seq<int>)
    requires
        is_walk(e, free, p),
        is_walk(e, free, q),
        p.last() == q[0],
    ensures
        is_walk(e, free, p + q.drop_first()),
        (p + q.drop_first())[0] == p[0],
        (p + q.drop_first()).last() == q.last(),
    decreases q.len(),
{
    if q.len() == 1 {
        assert(p + q.drop_first() =~= p);
    } else {
        let q1 = q.drop_last();
        lemma_walk_concat(e, free, p, q1);
        let r = p + q1.drop_first();
        lemma_walk_ends(e, free, q);
        assert(q1.last() == q[q.len() - 2]);
        assert(r.last() == q1.last());
        lemma_walk_extend(e, free, r, q.last());
        assert(r.push(q.last()) =~= p + q.drop_first());
    }
}

proof fn lemma_walk_reverse(e: Seq<(usize, usize)>, free: Seq<bool>, p: Seq<int>)
    requires
        is_walk(e, free, p),
    ensures
        is_walk(e, free, p.reverse()),
        p.reverse()[0] == p.last(),
        p.reverse().last() == p[0],
    decreases p.len(),
{
    lemma_walk_ends(e, free, p);
    if p.len() == 1 {
        assert(p.reverse() =~= p);
    } else {
        let p1 = p.drop_last();
        lemma_walk_reverse(e, free, p1);
        let single = seq![p.last()];
        assert(single.drop_last() =~= Seq::<int>::empty());
        assert(is_walk(e, free, single));
        let a = p[p.len() - 2];
        assert(near(e[a], e[p.last()]));
        assert(near(e[p.last()], e[a]));
        lemma_walk_ends(e, free, p1);
        assert(p1.last() == a);
        lemma_walk_extend(e, free, single, a);
        lemma_walk_concat(e, free, single.push(a), p1.reverse());
        assert(single.push(a) + p1.reverse().drop_first() =~= p.reverse());
    }
}

/// A walk through points that all satisfy `ok` and are free in `free` is
/// a walk in the mask that frees just those.
proof fn lemma_walk_restrict(e: Seq<(usize, usize)>, all: Seq<bool>, free: Seq<bool>, p: Seq<int>)
    requires
        is_walk(e, all, p),
        free.len() == all.len(),
        forall|k: int| 0 <= k < p.len() ==> free[#[trigger] p[k]],
    ensures
        is_walk(e, free, p),
    decreases p.len(),
{
    lemma_walk_ends(e, all, p);
    if p.len() > 1 {
        let p1 = p.drop_last();
        assert forall|k: int| 0 <= k < p1.len() implies free[#[trigger] p1[k]] by {
            assert(p1[k] == p[k]);
        }
        lemma_walk_restrict(e, all, free, p1);
    }
    assert(free[p[p.len() - 1]]);
}

proof fn lemma_walk_widen(e: Seq<(usize, usize)>, free: Seq<bool>, p: Seq<int>)
    requires
        is_walk(e, free, p),
    ensures
        is_walk(e, all_free(e.len()), p),
    decreases p.len(),
{
    lemma_walk_ends(e, free, p);
    if p.len() > 1 {
        lemma_walk_widen(e, free, p.drop_last());
    }
}

/// Every point on a walk from `p[0]` is connected to it.
proof fn lemma_walk_members_connected(e: Seq<(usize, usize)>, p: Seq<int>, k: int)
    requires
        is_walk(e, all_free(e.len()), p),
        0 <= k < p.len(),
    ensures
        connected(e, p[0], p[k]),
    decreases p.len(),
{
    if k == p.len() - 1 {
    } else {
        lemma_walk_ends(e, all_free(e.len()), p);
        lemma_walk_members_connected(e, p.drop_last(), k);
        assert(p.drop_last()[k] == p[k]);
        assert(p.drop_last()[0] == p[0]);
    }
}

proof fn lemma_connected_symmetric(e: Seq<(usize, usize)>, i: int, j: int)
    requires
        connected(e, i, j),
    ensures
        connected(e, j, i),
{
    let p = choose|path: Seq<int>| #[trigger] is_walk(e, all_free(e.len()), path) && path[0] == i && path.last() == j;
    lemma_walk_reverse(e, all_free(e.len()), p);
}

proof fn lemma_connected_transitive(e: Seq<(usize, usize)>, i: int, j: int, k: int)
    requires
        connected(e, i, j),
        connected(e, j, k),
    ensures
        connected(e, i, k),
{
    let p = choose|path: Seq<int>| #[trigger] is_walk(e, all_free(e.len()), path) && path[0] == i && path.last() == j;
    let q = choose|path: Seq<int>| #[trigger] is_walk(e, all_free(e.len()), path) && path[0] == j && path.last() == k;
    lemma_walk_concat(e, all_free(e.len()), p, q);
}

/// Point `j` is connected to one of the first `k` points.
pub open spec fn covered(e: Seq<(usize, usize)>, k: int, j: int) -> bool {
    exists|i: int| 0 <= i < k && #[trigger] connected(e, i, j)
}

proof fn lemma_count_new_within(e: Seq<(usize, usize)>, v0: Seq<bool>, v: Seq<bool>, i: int, k: int)
    requires
        v0.len() == e.len(),
        v.len() == e.len(),
        0 <= k <= e.len(),
        forall|j: int| 0 <= j < e.len() && v[j] && !v0[j] ==> #[trigger] connected(e, i, j),
    ensures
        count_new(v0, v, k) <= component_count(e, i, k),
    decreases k,
{
    if k > 0 {
        lemma_count_new_within(e, v0, v, i, k - 1);
    }
}

proof fn lemma_count_new_exact(e: Seq<(usize, usize)>, v0: Seq<bool>, v: Seq<bool>, i: int, k: int)
    requires
        v0.len() == e.len(),
        v.len() == e.len(),
        0 <= k <= e.len(),
        forall|j: int| 0 <= j < e.len() ==> ((v[j] && !v0[j]) <==> #[trigger] connected(e, i, j)),
    ensures
        count_new(v0, v, k) == component_count(e, i, k),
    decreases k,
{
    if k > 0 {
        lemma_count_new_exact(e, v0, v, i, k - 1);
        assert((v[k - 1] && !v0[k - 1]) <==> connected(e, i, k - 1));
    }
}

proof fn lemma_component_box_unique(e: Seq<(usize, usize)>, i: int, b: (usize, usize, usize, usize))
    requires
        is_component_box(e, i, b),
    ensures
        component_box(e, i) == b,
{
    let c = component_box(e, i);
    assert(is_component_box(e, i, c));
    let w0 = choose|j: int| 0 <= j < e.len() && connected(e, i, j) && (#[trigger] e[j]).0 == b.0;
    let w1 = choose|j: int| 0 <= j < e.len() && connected(e, i, j) && (#[trigger] e[j]).0 == b.1;
    let w2 = choose|j: int| 0 <= j < e.len() && connected(e, i, j) && (#[trigger] e[j]).1 == b.2;
    let w3 = choose|j: int| 0 <= j < e.len() && connected(e, i, j) && (#[trigger] e[j]).1 == b.3;
    let u0 = choose|j: int| 0 <= j < e.len() && connected(e, i, j) && (#[trigger] e[j]).0 == c.0;
    let u1 = choose|j: int| 0 <= j < e.len() && connected(e, i, j) && (#[trigger] e[j]).0 == c.1;
    let u2 = choose|j: int| 0 <= j < e.len() && connected(e, i, j) && (#[trigger] e[j]).1 == c.2;
    let u3 = choose|j: int| 0 <= j < e.len() && connected(e, i, j) && (#[trigger] e[j]).1 == c.3;
    assert(c.0 <= e[w0].0 && b.0 <= e[u0].0);
    assert(c.1 >= e[w1].0 && b.1 >= e[u1].0);
    assert(c.2 <= e[w2].1 && b.2 <= e[u2].1);
    assert(c.3 >= e[w3].1 && b.3 >= e[u3].1);
}

/// The rectangles of the edge points `e` of a `width` x `height` screen:
/// each group of points connected through points at most 3 apart each way
/// is grown from its first point (stopping after 1001 points); a group of
/// more than 20 points gives its bounding box, kept when it is at least
/// 20 wide and 10 high and at most half the screen each way: exactly the
/// boxes of `scan`.  When no group exceeds 1000 points these are the boxes
/// of the whole groups, `rectangles_upto`.
pub fn find_rectangles(e: &Vec<(usize, usize)>, width: usize, height: usize) -> (r: Vec<ElementBounds>)
    requires
        forall|i: int| 0 <= i < e@.len() ==> (#[trigger] e@[i]).0 <= i32::MAX && e@[i].1 <= i32::MAX,
        width <= u32::MAX,
        height <= u32::MAX,
    ensures
        forall|k: int|
            0 <= k < r@.len() ==> (#[trigger] r@[k]).x >= 0 && r@[k].y >= 0 && r@[k].width >= 0 && r@[k].height
                >= 0 && r@[k].x + r@[k].width <= i32::MAX && r@[k].y + r@[k].height <= i32::MAX && plausible_box(
                bounds_box(r@[k]),
                width as int,
                height as int,
            ),
        small_components(e@) ==> r@.map_values(|b: ElementBounds| bounds_box(b)) == rectangles_upto(
            e@,
            width as int,
            height as int,
            e@.len() as int,
        ),
        r@.map_values(|b: ElementBounds| bounds_box(b)) == scan(e@, width as int, height as int, e@.len() as int).1,
{
    let n = e.len();
    let ghost ev = e@;
    let mut visited: Vec<bool> = Vec::new();
    let mut q: usize = 0;
    while q < n
        invariant
            q <= n,
            visited@.len() == q,
            forall|j: int| 0 <= j < q ==> !#[trigger] visited@[j],
        decreases n - q,
    {
        visited.push(false);
        q = q + 1;
    }
    assert(visited@ =~= scan(ev, width as int, height as int, 0).0);
    let mut rects: Vec<ElementBounds> = Vec::new();
    assert(rects@.map_values(|b: ElementBounds| bounds_box(b)) =~= scan(ev, width as int, height as int, 0).1);
    let half_w = (width / 2) as i32;
    let half_h = (height / 2) as i32;
    let mut idx: usize = 0;
    while idx < n
        invariant
            n == e@.len(),
            ev == e@,
            idx <= n,
            visited@.len() == n,
            half_w == width / 2,
            half_h == height / 2,
            forall|i: int| 0 <= i < n ==> (#[trigger] e@[i]).0 <= i32::MAX && e@[i].1 <= i32::MAX,
            forall|k: int|
                0 <= k < rects@.len() ==> (#[trigger] rects@[k]).x >= 0 && rects@[k].y >= 0 && rects@[k].width >= 0
                    && rects@[k].height >= 0 && rects@[k].x + rects@[k].width <= i32::MAX && rects@[k].y
                    + rects@[k].height <= i32::MAX && plausible_box(bounds_box(rects@[k]), width as int, height as int),
            small_components(ev) ==> forall|j: int| 0 <= j < n ==> (#[trigger] visited@[j] <==> covered(ev, idx as int, j)),
            small_components(ev) ==> rects@.map_values(|b: ElementBounds| bounds_box(b)) == rectangles_upto(
                ev,
                width as int,
                height as int,
                idx as int,
            ),
            visited@ == scan(ev, width as int, height as int, idx as int).0,
            rects@.map_values(|b: ElementBounds| bounds_box(b)) == scan(ev, width as int, height as int, idx as int).1,
        decreases n - idx,
    {
        let ghost v0 = visited@;
        let ghost before = rects@;
        let ghost i = idx as int;
        if visited[idx] {
            proof {
                if small_components(ev) {
                    assert(covered(ev, i, i));
                    let a = choose|a: int| 0 <= a < i && #[trigger] connected(ev, a, i);
                    lemma_connected_symmetric(ev, a, i);
                    assert(!(forall|j: int| 0 <= j < i ==> !#[trigger] connected(ev, i, j)));
                    assert forall|j: int| 0 <= j < n implies (#[trigger] visited@[j] <==> covered(ev, i + 1, j)) by {
                        if connected(ev, i, j) {
                            lemma_connected_transitive(ev, a, i, j);
                            assert(covered(ev, i, j));
                        }
                        if covered(ev, i, j) {
                            let b = choose|b: int| 0 <= b < i && #[trigger] connected(ev, b, j);
                            assert(covered(ev, i + 1, j));
                        }
                        if covered(ev, i + 1, j) {
                            let b = choose|b: int| 0 <= b < i + 1 && #[trigger] connected(ev, b, j);
                            if b == i {
                                lemma_connected_transitive(ev, a, i, j);
                            }
                            assert(covered(ev, i, j));
                        }
                    }
                }
            }
        } else {
            let grown = grow_rectangle_from_point(e, idx, &mut visited);
            proof {
                if small_components(ev) {
                    let free = free_of(v0);
                    assert forall|j: int| 0 <= j < i implies !#[trigger] connected(ev, i, j) by {
                        if connected(ev, i, j) {
                            lemma_connected_symmetric(ev, i, j);
                            assert(covered(ev, i, i));
                        }
                    }
                    assert forall|j: int| 0 <= j < n && visited@[j] && !v0[j] implies #[trigger] connected(ev, i, j) by {
                        let p = choose|path: Seq<int>| #[trigger] is_walk(ev, free, path) && path[0] == i && path.last() == j;
                        lemma_walk_widen(ev, free, p);
                    }
                    lemma_count_new_within(ev, v0, visited@, i, n as int);
                    assert(component_count(ev, i, n as int) <= 1000);
                    assert forall|j: int| 0 <= j < n && #[trigger] connected(ev, i, j) implies visited@[j] && !v0[j] by {
                        let p = choose|path: Seq<int>| #[trigger] is_walk(ev, all_free(ev.len()), path) && path[0] == i
                            && path.last() == j;
                        assert forall|k: int| 0 <= k < p.len() implies free[#[trigger] p[k]] by {
                            lemma_walk_members_connected(ev, p, k);
                            lemma_walk_ends(ev, all_free(ev.len()), p);
                            lemma_walk_on_points(ev, p, k);
                            let m = p[k];
                            if v0[m] {
                                assert(covered(ev, i, m));
                                let a = choose|a: int| 0 <= a < i && #[trigger] connected(ev, a, m);
                                lemma_connected_symmetric(ev, i, m);
                                lemma_connected_transitive(ev, a, m, i);
                                assert(covered(ev, i, i));
                            }
                        }
                        lemma_walk_restrict(ev, all_free(ev.len()), free, p);
                        assert(reachable(ev, free, i, j));
                        if v0[j] {
                            lemma_walk_on_points(ev, p, p.len() - 1);
                        }
                    }
                    assert forall|j: int| 0 <= j < n implies ((visited@[j] && !v0[j]) <==> #[trigger] connected(ev, i, j)) by {}
                    lemma_count_new_exact(ev, v0, visited@, i, n as int);
                    assert forall|j: int| 0 <= j < n implies (#[trigger] visited@[j] <==> covered(ev, i + 1, j)) by {
                        if covered(ev, i + 1, j) {
                            let b = choose|b: int| 0 <= b < i + 1 && #[trigger] connected(ev, b, j);
                            if b < i {
                                assert(covered(ev, i, j));
                            }
                        }
                        if visited@[j] && v0[j] {
                            let b = choose|b: int| 0 <= b < i && #[trigger] connected(ev, b, j);
                            assert(covered(ev, i + 1, j));
                        }
                        if visited@[j] && !v0[j] {
                            assert(connected(ev, i, j));
                            assert(covered(ev, i + 1, j));
                        }
                    }
                }
            }
            match grown {
                Some(b) => {
                    proof {
                        if small_components(ev) {
                            let bb = bounds_box(b);
                            assert(is_component_box(ev, i, bb)) by {
                                assert forall|j: int| 0 <= j < n && connected(ev, i, j) implies bb.0 <= (#[trigger] ev[j]).0 <= bb.1
                                    && bb.2 <= ev[j].1 <= bb.3 by {
                                    assert(visited@[j] && !v0[j]);
                                }
                                let w0 = choose|j: int| 0 <= j < ev.len() && visited@[j] && !v0[j] && (#[trigger] ev[j]).0 == bb.0;
                                let w1 = choose|j: int| 0 <= j < ev.len() && visited@[j] && !v0[j] && (#[trigger] ev[j]).0 == bb.1;
                                let w2 = choose|j: int| 0 <= j < ev.len() && visited@[j] && !v0[j] && (#[trigger] ev[j]).1 == bb.2;
                                let w3 = choose|j: int| 0 <= j < ev.len() && visited@[j] && !v0[j] && (#[trigger] ev[j]).1 == bb.3;
                                assert(connected(ev, i, w0) && connected(ev, i, w1) && connected(ev, i, w2) && connected(ev, i, w3));
                            }
                            lemma_component_box_unique(ev, i, bb);
                        }
                    }
                    if b.width >= 20 && b.height >= 10 && b.width <= half_w && b.height <= half_h {
                        rects.push(b);
                        proof {
                            assert(rects@.map_values(|b: ElementBounds| bounds_box(b)) =~= before.map_values(
                                |b: ElementBounds| bounds_box(b),
                            ).push(bounds_box(b)));
                        }
                    } else {
                        assert(!plausible_box(bounds_box(b), width as int, height as int));
                    }
                },
                None => {},
            }
        }
        idx = idx + 1;
    }
    rects
}

proof fn lemma_walk_on_points(e: Seq<(usize, usize)>, p: Seq<int>, k: int)
    requires
        is_walk(e, all_free(e.len()), p),
        0 <= k < p.len(),
    ensures
        0 <= p[k] < e.len(),
    decreases p.len(),
{
    lemma_walk_ends(e, all_free(e.len()), p);
    if k < p.len() - 1 {
        lemma_walk_on_points(e, p.drop_last(), k);
        assert(p.drop_last()[k] == p[k]);
    }
}

/// What an element holds, by value: type, bounds, confidence, text and
/// attributes.
pub type ElementView = (Seq<char>, ElementBounds, u32, Option<Seq<char>>, Seq<(Seq<char>, Seq<char>)>);

/// The value of the element `e`.
pub open spec fn element_view(e: ScreenElement) -> ElementView {
    (
        e.element_type@,
        e.bounds,
        e.confidence,
        match e.text {
            Some(t) => Some(t@),
            None => None,
        },
        attributes_view(e),
    )
}

/// The element that classifying `r` in the image whose colours are `rgb`
/// (`w` x `h`) gives, if any.
pub open spec fn classify_view(rgb: Seq<(u8, u8, u8)>, w: int, h: int, r: ElementBounds) -> Option<ElementView> {
    match element_kind(r.width as int, r.height as int, rect_brightness(rgb, w, h, r), clipped_count(r, w, h)) {
        Some(kind) => Some(
            if kind == "element"@ {
                (kind, r, 30u32, None, Seq::empty())
            } else {
                (
                    kind,
                    r,
                    kind_confidence(kind, r.width as int, r.height as int) as u32,
                    None,
                    kind_attributes(kind, r.width * r.height),
                )
            },
        ),
        None => None,
    }
}

proof fn lemma_kind_confidence_range(kind: Seq<char>, w: int, h: int)
    ensures
        0 <= kind_confidence(kind, w, h) <= 100,
{
}

/// Classifies `r` and gives the element's value.
pub fn classify_rect(rgb: &Vec<(u8, u8, u8)>, w: usize, h: usize, r: ElementBounds) -> (e: Option<ScreenElement>)
    requires
        rgb@.len() == w * h,
        classifiable(r),
    ensures
        match e {
            Some(el) => classify_view(rgb@, w as int, h as int, r) == Some(element_view(el)) && el.confidence <= 100,
            None => classify_view(rgb@, w as int, h as int, r) is None,
        },
{
    let e = classify_element(rgb, w, h, r);
    proof {
        match &e {
            Some(el) => {
                let kind = el.element_type@;
                lemma_kind_confidence_range(kind, r.width as int, r.height as int);
                if kind == "element"@ {
                    assert(attributes_view(*el) =~= Seq::<(Seq<char>, Seq<char>)>::empty());
                }
            },
            None => {},
        }
    }
    e
}

/// The values of the elements `s`.
pub open spec fn views(s: Seq<ScreenElement>) -> Seq<ElementView> {
    s.map_values(|e: ScreenElement| element_view(e))
}

/// The element values of `s` at least `threshold` percent sure, in order,
/// at most `max` of them.
pub open spec fn kept_views(s: Seq<ElementView>, threshold: u32, max: usize) -> Seq<ElementView> {
    let f = s.filter(|v: ElementView| v.2 >= threshold);
    if f.len() > max {
        f.take(max as int)
    } else {
        f
    }
}

proof fn lemma_views_filter(s: Seq<ScreenElement>, threshold: u32)
    ensures
        views(s.filter(|e: ScreenElement| e.confidence >= threshold)) == views(s).filter(
            |v: ElementView| v.2 >= threshold,
        ),
    decreases s.len(),
{
    let p = |e: ScreenElement| e.confidence >= threshold;
    let q = |v: ElementView| v.2 >= threshold;
    if s.len() == 0 {
        assert(s.filter(p) =~= Seq::<ScreenElement>::empty());
        assert(views(s).filter(q) =~= Seq::<ElementView>::empty());
    } else {
        let f = s.drop_last();
        lemma_views_filter(f, threshold);
        f.lemma_filter_push(s.last(), p);
        views(f).lemma_filter_push(element_view(s.last()), q);
        assert(f.push(s.last()) =~= s);
        assert(views(f).push(element_view(s.last())) =~= views(s));
        if p(s.last()) {
            assert(views(f.filter(p).push(s.last())) =~= views(f.filter(p)).push(element_view(s.last())));
        }
    }
}

/// The element values of `s` whose confidence is `c`, in order.
pub open spec fn with_conf(s: Seq<ElementView>, c: int) -> Seq<ElementView>
    decreases s.len(),
{
    if s.len() == 0 {
        Seq::empty()
    } else if s.last().2 == c {
        with_conf(s.drop_last(), c).push(s.last())
    } else {
        with_conf(s.drop_last(), c)
    }
}

/// The element values of `s` whose confidence is not `c`, in order.
pub open spec fn without_conf(s: Seq<ElementView>, c: int) -> Seq<ElementView>
    decreases s.len(),
{
    if s.len() == 0 {
        Seq::empty()
    } else if s.last().2 != c {
        without_conf(s.drop_last(), c).push(s.last())
    } else {
        without_conf(s.drop_last(), c)
    }
}

/// The element values of `s` whose confidence is at most `c`, in order.
pub open spec fn at_most(s: Seq<ElementView>, c: int) -> Seq<ElementView>
    decreases s.len(),
{
    if s.len() == 0 {
        Seq::empty()
    } else if s.last().2 <= c {
        at_most(s.drop_last(), c).push(s.last())
    } else {
        at_most(s.drop_last(), c)
    }
}

/// The element values of `s` with a confidence above `c`, from the most
/// sure down, keeping the order of `s` among equally sure ones.
pub open spec fn ranked(s: Seq<ElementView>, c: int) -> Seq<ElementView>
    decreases 100 - c,
{
    if c >= 100 {
        Seq::empty()
    } else {
        ranked(s, c + 1) + with_conf(s, c + 1)
    }
}

proof fn lemma_at_most_all(s: Seq<ElementView>)
    requires
        forall|i: int| 0 <= i < s.len() ==> (#[trigger] s[i]).2 <= 100,
    ensures
        at_most(s, 100) == s,
    decreases s.len(),
{
    if s.len() > 0 {
        let f = s.drop_last();
        assert forall|i: int| 0 <= i < f.len() implies (#[trigger] f[i]).2 <= 100 by {
            assert(f[i] == s[i]);
        }
        lemma_at_most_all(f);
        assert(s.last() == s[s.len() - 1]);
        assert(f.push(s.last()) =~= s);
    }
}

proof fn lemma_at_most_split(s: Seq<ElementView>, c: int)
    ensures
        with_conf(at_most(s, c), c) == with_conf(s, c),
        without_conf(at_most(s, c), c) == at_most(s, c - 1),
    decreases s.len(),
{
    if s.len() > 0 {
        lemma_at_most_split(s.drop_last(), c);
        let a = at_most(s.drop_last(), c);
        if s.last().2 <= c {
            assert(at_most(s, c).drop_last() =~= a);
        }
    }
}

proof fn lemma_with_without_step(s: Seq<ElementView>, t: int, c: int)
    requires
        0 <= t < s.len(),
    ensures
        with_conf(s.take(t + 1), c) == if s[t].2 == c {
            with_conf(s.take(t), c).push(s[t])
        } else {
            with_conf(s.take(t), c)
        },
        without_conf(s.take(t + 1), c) == if s[t].2 != c {
            without_conf(s.take(t), c).push(s[t])
        } else {
            without_conf(s.take(t), c)
        },
{
    assert(s.take(t + 1).drop_last() =~= s.take(t));
    assert(s.take(t + 1).last() == s[t]);
}

proof fn lemma_ranked_bounds(s: Seq<ElementView>, c: int, lo: int)
    requires
        lo <= c,
    ensures
        forall|i: int| 0 <= i < ranked(s, c).len() ==> (#[trigger] ranked(s, c)[i]).2 > c,
        forall|i: int, j: int| 0 <= i < j < ranked(s, c).len() ==> (#[trigger] ranked(s, c)[i]).2 >= (#[trigger] ranked(s, c)[j]).2,
    decreases 100 - c,
{
    if c < 100 {
        lemma_ranked_bounds(s, c + 1, lo);
        lemma_with_conf_values(s, c + 1);
        let r = ranked(s, c + 1);
        let w = with_conf(s, c + 1);
        assert forall|i: int| 0 <= i < ranked(s, c).len() implies (#[trigger] ranked(s, c)[i]).2 > c by {
            if i < r.len() {
                assert(ranked(s, c)[i] == r[i]);
            } else {
                assert(ranked(s, c)[i] == w[i - r.len()]);
            }
        }
        assert forall|i: int, j: int| 0 <= i < j < ranked(s, c).len() implies (#[trigger] ranked(s, c)[i]).2 >= (
        #[trigger] ranked(s, c)[j]).2 by {
            if j < r.len() {
                assert(ranked(s, c)[i] == r[i]);
                assert(ranked(s, c)[j] == r[j]);
            } else if i < r.len() {
                assert(ranked(s, c)[i] == r[i]);
                assert(ranked(s, c)[j] == w[j - r.len()]);
            } else {
                assert(ranked(s, c)[i] == w[i - r.len()]);
                assert(ranked(s, c)[j] == w[j - r.len()]);
            }
        }
    }
}

proof fn lemma_with_conf_values(s: Seq<ElementView>, c: int)
    ensures
        forall|i: int| 0 <= i < with_conf(s, c).len() ==> (#[trigger] with_conf(s, c)[i]).2 == c,
    decreases s.len(),
{
    if s.len() > 0 {
        lemma_with_conf_values(s.drop_last(), c);
        let p = with_conf(s.drop_last(), c);
        assert forall|i: int| 0 <= i < with_conf(s, c).len() implies (#[trigger] with_conf(s, c)[i]).2 == c by {
            if i < p.len() {
                assert(with_conf(s, c)[i] == p[i]);
            }
        }
    }
}

/// The elements from the most sure down, keeping their order among
/// equally sure ones.
pub fn sort_by_confidence(elements: Vec<ScreenElement>) -> (r: Vec<ScreenElement>)
    requires
        forall|i: int| 0 <= i < elements@.len() ==> (#[trigger] elements@[i]).confidence <= 100,
    ensures
        views(r@) == ranked(views(elements@), -1),
{
    let ghost all = views(elements@);
    proof {
        assert forall|i: int| 0 <= i < all.len() implies (#[trigger] all[i]).2 <= 100 by {
            assert(all[i] == element_view(elements@[i]));
        }
        lemma_at_most_all(all);
    }
    let mut rest = elements;
    let mut out: Vec<ScreenElement> = Vec::new();
    let mut c: u32 = 101;
    assert(views(out@) =~= Seq::<ElementView>::empty());
    while c > 0
        invariant
            c <= 101,
            views(rest@) == at_most(all, c as int - 1),
            views(out@) == ranked(all, c as int - 1),
        decreases c,
    {
        let level = c - 1;
        let ghost rest0 = views(rest@);
        let ghost out0 = views(out@);
        let ghost mut t: int = 0;
        let mut i: usize = 0;
        assert(without_conf(rest0.take(0), level as int) =~= Seq::<ElementView>::empty());
        assert(with_conf(rest0.take(0), level as int) =~= Seq::<ElementView>::empty());
        assert(rest0.skip(0) =~= rest0);
        assert(out0 + Seq::<ElementView>::empty() =~= out0);
        while i < rest.len()
            invariant
                0 <= t <= rest0.len(),
                views(rest@) == without_conf(rest0.take(t), level as int) + rest0.skip(t),
                views(out@) == out0 + with_conf(rest0.take(t), level as int),
                i == without_conf(rest0.take(t), level as int).len(),
                rest@.len() - i == rest0.len() - t,
            decreases rest@.len() - i,
        {
            let ghost pre = views(rest@);
            assert(pre[i as int] == rest0[t]);
            proof {
                lemma_with_without_step(rest0, t, level as int);
            }
            if rest[i].confidence == level {
                let ghost rest_before = rest@;
                let e = rest.remove(i);
                let ghost o = views(out@);
                out.push(e);
                proof {
                    assert(rest@ == rest_before.remove(i as int));
                    assert(views(rest@) =~= pre.remove(i as int));
                    let wt = without_conf(rest0.take(t), level as int);
                    assert(pre.remove(i as int) =~= wt + rest0.skip(t + 1));
                    assert(views(rest@) =~= without_conf(rest0.take(t + 1), level as int) + rest0.skip(t + 1));
                    assert(views(out@) =~= o.push(element_view(e)));
                    assert(views(out@) =~= out0 + with_conf(rest0.take(t + 1), level as int));
                }
            } else {
                proof {
                    assert(views(rest@) =~= without_conf(rest0.take(t + 1), level as int) + rest0.skip(t + 1));
                }
                i = i + 1;
            }
            proof {
                t = t + 1;
            }
        }
        proof {
            assert(t == rest0.len());
            assert(rest0.take(t) =~= rest0);
            assert(rest0.skip(t) =~= Seq::<ElementView>::empty());
            lemma_at_most_split(all, level as int);
            assert(views(rest@) =~= at_most(all, level as int - 1));
            assert(views(out@) =~= ranked(all, level as int - 1));
        }
        c = level;
    }
    out
}

/// The values of the elements that classifying the rectangles `rects`
/// gives, in order, leaving out those that give none.
pub open spec fn classified_all(rgb: Seq<(u8, u8, u8)>, w: int, h: int, rects: Seq<ElementBounds>) -> Seq<ElementView>
    decreases rects.len(),
{
    if rects.len() == 0 {
        Seq::empty()
    } else {
        let prev = classified_all(rgb, w, h, rects.drop_last());
        match classify_view(rgb, w, h, rects.last()) {
            Some(v) => prev.push(v),
            None => prev,
        }
    }
}

/// The element bounds of a box `(min x, max x, min y, max y)`.
pub open spec fn box_bounds(b: (usize, usize, usize, usize)) -> ElementBounds {
    ElementBounds { x: b.0 as i32, y: b.2 as i32, width: (b.1 - b.0) as i32, height: (b.3 - b.2) as i32 }
}

/// What the detector finds on `img`: the plausible rectangles of the edge
/// points' groups (grown as `scan` grows them), classified, from the most
/// sure down, at most 50.
pub open spec fn detections(img: &Image) -> Seq<ElementView> {
    let rgb = rgb_pixels(img);
    let w = img.width as int;
    let h = img.height as int;
    let edges = screen_edges(img);
    let rects = scan(edges, w, h, edges.len() as int).1.map_values(|b: (usize, usize, usize, usize)| box_bounds(b));
    let ranked_all = ranked(classified_all(rgb, w, h, rects), -1);
    if ranked_all.len() > 50 {
        ranked_all.take(50)
    } else {
        ranked_all
    }
}

/// An image the detector takes: at least one row, a column when it has
/// three rows or more, coordinates that fit in an `i32`, and rectangles of
/// half its width by half its height whose area an `i32` holds (the area of
/// a kept rectangle is computed in `i32`).
pub open spec fn detectable(img: &Image) -> bool {
    &&& img.wf()
    &&& img.height >= 1
    &&& img.height >= 3 ==> img.width >= 1
    &&& (img.width / 2) * (img.height / 2) <= i32::MAX
    &&& img.width <= i32::MAX
    &&& img.height <= i32::MAX
}

proof fn lemma_edges_in_image(rgb: Seq<(u8, u8, u8)>, w: int, y: int)
    requires
        y <= usize::MAX + 1,
        w <= usize::MAX,
    ensures
        forall|i: int| 0 <= i < edges_upto(rgb, w, y).len() ==> (#[trigger] edges_upto(rgb, w, y)[i]).0 < w && edges_upto(rgb, w, y)[i].1 < y,
    decreases y,
{
    if y > 1 {
        lemma_edges_in_image(rgb, w, y - 1);
        lemma_row_edges_in_image(rgb, w, y - 1, w - 1);
        let a = edges_upto(rgb, w, y - 1);
        let b = row_edges(rgb, w, y - 1, w - 1);
        assert forall|i: int| 0 <= i < edges_upto(rgb, w, y).len() implies (#[trigger] edges_upto(rgb, w, y)[i]).0 < w
            && edges_upto(rgb, w, y)[i].1 < y by {
            if i < a.len() {
                assert(edges_upto(rgb, w, y)[i] == a[i]);
            } else {
                assert(edges_upto(rgb, w, y)[i] == b[i - a.len()]);
            }
        }
    }
}

proof fn lemma_row_edges_in_image(rgb: Seq<(u8, u8, u8)>, w: int, y: int, x: int)
    requires
        0 <= y <= usize::MAX,
        x <= usize::MAX + 1,
    ensures
        forall|i: int| 0 <= i < row_edges(rgb, w, y, x).len() ==> (#[trigger] row_edges(rgb, w, y, x)[i]).0 < x && row_edges(rgb, w, y, x)[i].1 == y,
    decreases x,
{
    if x > 1 {
        lemma_row_edges_in_image(rgb, w, y, x - 1);
        let p = row_edges(rgb, w, y, x - 1);
        assert forall|i: int| 0 <= i < row_edges(rgb, w, y, x).len() implies (#[trigger] row_edges(rgb, w, y, x)[i]).0 < x
            && row_edges(rgb, w, y, x)[i].1 == y by {
            if i < p.len() {
                assert(row_edges(rgb, w, y, x)[i] == p[i]);
            }
        }
    }
}

/// The hand-written UI element detector.
pub struct VisionProcessor {
    min_element_size: u32,
}

impl VisionProcessor {
    /// The smallest element width it keeps; half of it is the smallest
    /// height.
    pub closed spec fn min_size(self) -> u32 {
        self.min_element_size
    }

    /// A detector keeping elements at least 20 wide and 10 high.
    pub fn new() -> (v: Self)
        ensures
            v.min_size() == 20,
    {
        VisionProcessor { min_element_size: 20 }
    }

    /// The UI elements of `img`: edge points found with the Sobel operator,
    /// grouped into rectangles, each classified by shape and brightness;
    /// from the most sure down, at most 50: exactly `detections(img)`.
    pub fn detect_elements(&self, img: &Image) -> (r: Vec<ScreenElement>)
        requires
            detectable(img),
        ensures
            r@.len() <= 50,
            forall|i: int| 0 <= i < r@.len() ==> (#[trigger] r@[i]).confidence <= 100,
            forall|i: int, j: int| 0 <= i < j < r@.len() ==> (#[trigger] r@[i]).confidence >= (#[trigger] r@[j]).confidence,
            forall|i: int| 0 <= i < r@.len() ==> placed((#[trigger] r@[i]).bounds),
            views(r@) == detections(img),
    {
        let rgb = to_rgb_pixels(img);
        let w = img.width;
        let h = img.height;
        let edges = detect_edges(img);
        proof {
            lemma_edges_in_image(rgb@, w as int, h - 1);
            assert forall|i: int| 0 <= i < edges@.len() implies (#[trigger] edges@[i]).0 <= i32::MAX && edges@[i].1
                <= i32::MAX by {
                assert(edges@[i] == edges_upto(rgb@, w as int, h - 1)[i]);
            }
        }
        let rects = find_rectangles(&edges, w, h);
        let ghost boxes = scan(edges@, w as int, h as int, edges@.len() as int).1;
        let ghost rv = boxes.map_values(|b: (usize, usize, usize, usize)| box_bounds(b));
        proof {
            assert forall|k: int| 0 <= k < rects@.len() implies #[trigger] rects@[k] == rv[k] by {
                assert(rects@.map_values(|b: ElementBounds| bounds_box(b))[k] == bounds_box(rects@[k]));
                assert(boxes[k] == bounds_box(rects@[k]));
            }
            assert(rects@ =~= rv);
        }
        let mut found: Vec<ScreenElement> = Vec::new();
        let mut k: usize = 0;
        while k < rects.len()
            invariant
                k <= rects@.len(),
                rgb@ == rgb_pixels(img),
                rgb@.len() == w * h,
                w == img.width,
                h == img.height,
                (w / 2) * (h / 2) <= i32::MAX,
                forall|q: int|
                    0 <= q < rects@.len() ==> (#[trigger] rects@[q]).x >= 0 && rects@[q].y >= 0 && rects@[q].width >= 0
                        && rects@[q].height >= 0 && rects@[q].x + rects@[q].width <= i32::MAX && rects@[q].y
                        + rects@[q].height <= i32::MAX && plausible_box(bounds_box(rects@[q]), w as int, h as int),
                views(found@) == classified_all(rgb@, w as int, h as int, rects@.take(k as int)),
                forall|q: int| 0 <= q < found@.len() ==> (#[trigger] found@[q]).confidence <= 100,
                forall|q: int| 0 <= q < found@.len() ==> placed((#[trigger] found@[q]).bounds),
            decreases rects@.len() - k,
        {
            let r = rects[k];
            assert(plausible_box(bounds_box(rects@[k as int]), w as int, h as int));
            assert(r.width * r.height <= i32::MAX) by {
                assert(r.width <= w / 2 && r.height <= h / 2);
                assert(r.width * r.height <= (w / 2) * (h / 2)) by (nonlinear_arith)
                    requires
                        0 <= r.width <= w / 2,
                        0 <= r.height <= h / 2,
                ;
            }
            assert(rects@.take(k + 1).drop_last() =~= rects@.take(k as int));
            assert(rects@.take(k + 1).last() == r);
            let ghost before = views(found@);
            match classify_rect(&rgb, w, h, r) {
                Some(el) => {
                    assert(element_view(el).1 == r);
                    found.push(el);
                    assert(views(found@) =~= before.push(element_view(el)));
                },
                None => {},
            }
            k = k + 1;
        }
        assert(rects@.take(rects@.len() as int) =~= rects@);
        let mut sorted = sort_by_confidence(found);
        proof {
            lemma_ranked_bounds(views(found@), -1, -1);
            assert forall|i: int, j: int| 0 <= i < j < sorted@.len() implies (#[trigger] sorted@[i]).confidence >= (
            #[trigger] sorted@[j]).confidence by {
                assert(views(sorted@)[i] == element_view(sorted@[i]));
                assert(views(sorted@)[j] == element_view(sorted@[j]));
            }
            assert forall|i: int| 0 <= i < sorted@.len() implies (#[trigger] sorted@[i]).confidence <= 100 by {
                lemma_ranked_le_100(views(found@), -1);
                assert(views(sorted@)[i] == element_view(sorted@[i]));
            }
            assert forall|i: int| 0 <= i < views(found@).len() implies (#[trigger] views(found@)[i]).2 <= 100 by {
                assert(views(found@)[i] == element_view(found@[i]));
            }
            lemma_sorting_by_confidence(views(found@));
            lemma_views_placed(found@, sorted@);
        }
        if sorted.len() > 50 {
            let ghost full = sorted@;
            sorted.truncate(50);
            assert(views(sorted@) =~= views(full).take(50));
            assert(forall|i: int| 0 <= i < sorted@.len() ==> sorted@[i] == full[i]);
        }
        sorted
    }
}

/// The rectangle `b` lies in the quadrant of non-negative coordinates,
/// with its far edges within `i32`.
pub open spec fn placed(b: ElementBounds) -> bool {
    &&& b.x >= 0
    &&& b.y >= 0
    &&& b.width >= 0
    &&& b.height >= 0
    &&& b.x + b.width <= i32::MAX
    &&& b.y + b.height <= i32::MAX
}

/// Elements with the same values as placed elements are placed.
proof fn lemma_views_placed(a: Seq<ScreenElement>, b: Seq<ScreenElement>)
    requires
        forall|q: int| 0 <= q < a.len() ==> placed((#[trigger] a[q]).bounds),
        views(b).to_multiset() == views(a).to_multiset(),
    ensures
        forall|q: int| 0 <= q < b.len() ==> placed((#[trigger] b[q]).bounds),
{
    broadcast use vstd::seq_lib::group_to_multiset_ensures;

    assert forall|q: int| 0 <= q < b.len() implies placed((#[trigger] b[q]).bounds) by {
        let v = views(b)[q];
        assert(views(b).contains(v));
        assert(views(b).to_multiset().count(v) > 0);
        assert(views(a).to_multiset().count(v) > 0);
        assert(views(a).contains(v));
        let j = choose|j: int| 0 <= j < views(a).len() && views(a)[j] == v;
        assert(views(a)[j] == element_view(a[j]));
        assert(v == element_view(b[q]));
    }
}

proof fn lemma_ranked_le_100(s: Seq<ElementView>, c: int)
    ensures
        forall|i: int| 0 <= i < ranked(s, c).len() ==> (#[trigger] ranked(s, c)[i]).2 <= 100,
    decreases 100 - c,
{
    if c < 100 {
        lemma_ranked_le_100(s, c + 1);
        lemma_with_conf_values(s, c + 1);
        let r = ranked(s, c + 1);
        let w = with_conf(s, c + 1);
        assert forall|i: int| 0 <= i < ranked(s, c).len() implies (#[trigger] ranked(s, c)[i]).2 <= 100 by {
            if i < r.len() {
                assert(ranked(s, c)[i] == r[i]);
            } else {
                assert(ranked(s, c)[i] == w[i - r.len()]);
            }
        }
    }
}

/// `a + b`, or the largest `u64` when that overflows.
pub open spec fn sat_add(a: u64, b: int) -> u64 {
    if a + b > u64::MAX {
        u64::MAX
    } else {
        (a + b) as u64
    }
}

impl AICoordinator {
    /// Analyses the screen image `img`: the detected elements at least as
    /// sure as the threshold, at most the maximum of them, their mean
    /// confidence, the time taken and the screen size; counts the image,
    /// the elements and the time.
    pub fn analyze_screen(&mut self, img: &Image) -> (a: ScreenAnalysis)
        requires
            detectable(img),
        ensures
            final(self).threshold() == old(self).threshold(),
            final(self).max_kept() == old(self).max_kept(),
            a.elements@.len() <= old(self).max_kept(),
            forall|i: int| 0 <= i < a.elements@.len() ==> (#[trigger] a.elements@[i]).confidence >= old(self).threshold(),
            forall|i: int| 0 <= i < a.elements@.len() ==> placed((#[trigger] a.elements@[i]).bounds),
            views(a.elements@) == kept_views(
                detections(img),
                old(self).threshold(),
                old(self).max_kept(),
            ),
            a.confidence == mean_confidence(a.elements@),
            a.screen_size == (img.width, img.height),
            final(self).counters() == (
                sat_add(old(self).counters().0, 1),
                sat_add(old(self).counters().1, a.elements@.len() as int),
                sat_add(old(self).counters().2, a.processing_time_ms as int),
            ),
    {
        let start = crate::util::clock_millis();
        let vision = VisionProcessor::new();
        let found = vision.detect_elements(img);
        let ghost fv = found@;
        let elements = filter_elements(found, self.confidence_threshold, self.max_elements);
        proof {
            let pred = |e: ScreenElement| e.confidence >= self.confidence_threshold;
            let f = fv.filter(pred);
            assert forall|i: int| 0 <= i < elements@.len() implies (#[trigger] elements@[i]).confidence
                >= self.confidence_threshold by {
                assert(pred(f[i]));
                if f.len() > self.max_elements {
                    assert(elements@[i] == f.take(self.max_elements as int)[i]);
                }
            }
            assert forall|i: int| 0 <= i < elements@.len() implies placed((#[trigger] elements@[i]).bounds) by {
                if f.len() > self.max_elements {
                    assert(elements@[i] == f.take(self.max_elements as int)[i]);
                }
                assert(elements@[i] == f[i]);
                assert(f.contains(f[i]));
                fv.lemma_filter_contains_rev(pred, f[i]);
            }
        }
        let processing_time_ms = crate::util::clock_millis().saturating_sub(start);
        self.stats.images_processed = self.stats.images_processed.saturating_add(1);
        self.stats.elements_detected = self.stats.elements_detected.saturating_add(elements.len() as u64);
        self.stats.total_processing_time_ms = self.stats.total_processing_time_ms.saturating_add(processing_time_ms);
        let confidence = calculate_overall_confidence(&elements);
        ScreenAnalysis { elements, confidence, processing_time_ms, screen_size: (img.width, img.height) }
    }
}

/// `a` is an analysis that `analyze_screen` may give of `img` on a
/// coordinator that was `before` and became `after`: what its `ensures`
/// states.
pub open spec fn analysis_of(before: AICoordinator, after: AICoordinator, img: &Image, a: ScreenAnalysis) -> bool {
    &&& after.threshold() == before.threshold()
    &&& after.max_kept() == before.max_kept()
    &&& a.elements@.len() <= before.max_kept()
    &&& forall|i: int| 0 <= i < a.elements@.len() ==> (#[trigger] a.elements@[i]).confidence >= before.threshold()
    &&& forall|i: int| 0 <= i < a.elements@.len() ==> placed((#[trigger] a.elements@[i]).bounds)
    &&& views(a.elements@) == kept_views(
        detections(img),
        before.threshold(),
        before.max_kept(),
    )
    &&& a.confidence == mean_confidence(a.elements@)
    &&& a.screen_size == (img.width, img.height)
    &&& after.counters() == (
        sat_add(before.counters().0, 1),
        sat_add(before.counters().1, a.elements@.len() as int),
        sat_add(before.counters().2, a.processing_time_ms as int),
    )
}

/// The center of a placed rectangle is a point of `i32` coordinates.
pub proof fn lemma_placed_center_fits(b: ElementBounds)
    requires
        placed(b),
    ensures
        center_fits(b),
{
}

proof fn lemma_at_most_split_multiset(s: Seq<ElementView>, c: int)
    ensures
        at_most(s, c).to_multiset() == with_conf(s, c).to_multiset().add(at_most(s, c - 1).to_multiset()),
    decreases s.len(),
{
    broadcast use vstd::seq_lib::group_to_multiset_ensures;
    broadcast use vstd::multiset::group_multiset_axioms;

    if s.len() == 0 {
        assert(at_most(s, c).to_multiset() =~= with_conf(s, c).to_multiset().add(at_most(s, c - 1).to_multiset()));
    } else {
        lemma_at_most_split_multiset(s.drop_last(), c);
        let l = s.last();
        assert(at_most(s, c).to_multiset() =~= with_conf(s, c).to_multiset().add(at_most(s, c - 1).to_multiset()));
    }
}

proof fn lemma_at_most_none(s: Seq<ElementView>)
    ensures
        at_most(s, -1) == Seq::<ElementView>::empty(),
    decreases s.len(),
{
    if s.len() > 0 {
        lemma_at_most_none(s.drop_last());
    }
}

proof fn lemma_ranked_keeps(s: Seq<ElementView>, c: int)
    requires
        -1 <= c <= 100,
        forall|i: int| 0 <= i < s.len() ==> (#[trigger] s[i]).2 <= 100,
    ensures
        ranked(s, c).to_multiset().add(at_most(s, c).to_multiset()) == s.to_multiset(),
    decreases 100 - c,
{
    broadcast use vstd::multiset::group_multiset_axioms;

    broadcast use vstd::seq_lib::group_to_multiset_ensures;

    if c == 100 {
        lemma_at_most_all(s);
        assert(ranked(s, c) == Seq::<ElementView>::empty());
        assert(ranked(s, c).to_multiset() =~= vstd::multiset::Multiset::<ElementView>::empty());
        assert(ranked(s, c).to_multiset().add(at_most(s, c).to_multiset()) =~= s.to_multiset());
    } else {
        lemma_ranked_keeps(s, c + 1);
        lemma_at_most_split_multiset(s, c + 1);
        vstd::seq_lib::lemma_multiset_commutative(ranked(s, c + 1), with_conf(s, c + 1));
        assert(ranked(s, c).to_multiset().add(at_most(s, c).to_multiset()) =~= s.to_multiset());
    }
}

/// Sorting by confidence keeps every element exactly as often as it
/// occurs, puts the more sure ones first, and keeps the order of equally
/// sure ones.
pub proof fn lemma_sorting_by_confidence(s: Seq<ElementView>)
    requires
        forall|i: int| 0 <= i < s.len() ==> (#[trigger] s[i]).2 <= 100,
    ensures
        ranked(s, -1).to_multiset() == s.to_multiset(),
        forall|i: int, j: int| 0 <= i < j < ranked(s, -1).len() ==> (#[trigger] ranked(s, -1)[i]).2 >= (#[trigger] ranked(s, -1)[j]).2,
        forall|c: int| 0 <= c <= 100 ==> #[trigger] with_conf(ranked(s, -1), c) == with_conf(s, c),
{
    broadcast use vstd::multiset::group_multiset_axioms;

    broadcast use vstd::seq_lib::group_to_multiset_ensures;

    lemma_ranked_keeps(s, -1);
    lemma_at_most_none(s);
    assert(at_most(s, -1).to_multiset() =~= vstd::multiset::Multiset::<ElementView>::empty());
    assert(ranked(s, -1).to_multiset() =~= s.to_multiset());
    lemma_ranked_bounds(s, -1, -1);
    assert forall|c: int| 0 <= c <= 100 implies #[trigger] with_conf(ranked(s, -1), c) == with_conf(s, c) by {
        lemma_ranked_filter(s, -1, c);
    }
}

proof fn lemma_with_conf_twice(s: Seq<ElementView>, c: int, d: int)
    ensures
        with_conf(with_conf(s, d), c) == if c == d { with_conf(s, c) } else { Seq::<ElementView>::empty() },
    decreases s.len(),
{
    if s.len() > 0 {
        lemma_with_conf_twice(s.drop_last(), c, d);
        let w = with_conf(s.drop_last(), d);
        if s.last().2 == d {
            assert(with_conf(s, d).drop_last() =~= w);
        }
    }
}

proof fn lemma_with_conf_concat(a: Seq<ElementView>, b: Seq<ElementView>, c: int)
    ensures
        with_conf(a + b, c) == with_conf(a, c) + with_conf(b, c),
    decreases b.len(),
{
    if b.len() == 0 {
        assert(a + b =~= a);
        assert(with_conf(a, c) + with_conf(b, c) =~= with_conf(a, c));
    } else {
        lemma_with_conf_concat(a, b.drop_last(), c);
        assert((a + b).drop_last() =~= a + b.drop_last());
        assert((a + b).last() == b.last());
        if b.last().2 == c {
            assert(with_conf(a, c) + with_conf(b, c) =~= (with_conf(a, c) + with_conf(b.drop_last(), c)).push(b.last()));
        }
    }
}

proof fn lemma_ranked_filter(s: Seq<ElementView>, k: int, c: int)
    requires
        -1 <= k,
        0 <= c <= 100,
    ensures
        with_conf(ranked(s, k), c) == if c > k { with_conf(s, c) } else { Seq::<ElementView>::empty() },
    decreases 100 - k,
{
    if k >= 100 {
        assert(ranked(s, k) == Seq::<ElementView>::empty());
    } else {
        lemma_ranked_filter(s, k + 1, c);
        lemma_with_conf_twice(s, c, k + 1);
        lemma_with_conf_concat(ranked(s, k + 1), with_conf(s, k + 1), c);
        if c > k + 1 {
            assert(with_conf(s, c) + Seq::<ElementView>::empty() =~= with_conf(s, c));
        } else if c == k + 1 {
            assert(Seq::<ElementView>::empty() + with_conf(s, c) =~= with_conf(s, c));
        } else {
            assert(Seq::<ElementView>::empty() + Seq::<ElementView>::empty() =~= Seq::<ElementView>::empty());
        }
    }
}

proof fn lemma_first_text_match_bounds(els: Seq<ScreenElement>, cmd: Seq<char>, n: int)
    ensures
        first_text_match(els, cmd, n) matches Some(i) ==> 0 <= i < n,
    decreases n,
{
    if n > 0 {
        lemma_first_text_match_bounds(els, cmd, n - 1);
    }
}

proof fn lemma_first_clickable_bounds(els: Seq<ScreenElement>, n: int)
    ensures
        first_clickable(els, n) matches Some(i) ==> 0 <= i < n,
    decreases n,
{
    if n > 0 {
        lemma_first_clickable_bounds(els, n - 1);
    }
}

/// A planned click lands inside the element it was planned for: at its
/// center, within its bounds when they are not negative.
pub proof fn lemma_click_lands_on_element(cmd: Seq<char>, els: Seq<ScreenElement>, r: Seq<LunaAction>)
    requires
        planned(cmd, els, r),
        r.len() >= 1,
        r[0] is Click,
        forall|i: int| 0 <= i < els.len() ==> (#[trigger] els[i]).bounds.width >= 0 && els[i].bounds.height >= 0,
    ensures
        clickable_index(lowercase(cmd), els) matches Some(i) && 0 <= i < els.len() && (r[0] matches LunaAction::Click {
            x,
            y,
        } && els[i].bounds.x <= x <= els[i].bounds.x + els[i].bounds.width && els[i].bounds.y <= y
            <= els[i].bounds.y + els[i].bounds.height),
{
    let lower = lowercase(cmd);
    let n = els.len() as int;
    lemma_first_of_type_bounds(els, "button"@, n);
    lemma_first_of_type_bounds(els, "link"@, n);
    lemma_first_text_match_bounds(els, lower, n);
    lemma_first_clickable_bounds(els, n);
    assert(contains_text(lower, "click"@));
    let i = clickable_index(lower, els)->0;
    assert(els[i].bounds.width >= 0 && els[i].bounds.height >= 0);
}

} // verus!
