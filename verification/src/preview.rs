//! The action preview: before planned actions run, the overlay marks each
//! one (a circle and a label for a click, a caption for typing, keys or a
//! wait), counts down, and can preview detected elements.

use vstd::prelude::*;
use vstd::string::StringExecFns;
use crate::ai::{ScreenElement, is_clickable_type};
use crate::safety::LunaAction;
use crate::text::{append_decimal, decimal, str_eq};

verus! {

/// What an overlay mark shows.
#[derive(Debug, Clone, Copy, PartialEq, Eq, Structural)]
pub enum OverlayElementType {
    Highlight,
    Circle,
    Arrow,
    Text,
    Countdown,
    Preview,
}

/// Settings of the action preview.
#[derive(Debug, Clone, Copy)]
pub struct OverlayConfig {
    pub show_highlights: bool,
    pub show_countdown: bool,
    pub show_action_preview: bool,
    /// RGBA colour of click marks.
    pub highlight_color: [u8; 4],
    /// RGBA colour of the countdown.
    pub countdown_color: [u8; 4],
    /// Opacity of the overlay, in percent.
    pub overlay_opacity_percent: u32,
    pub countdown_duration_ms: u64,
    pub highlight_thickness: u32,
}

impl Default for OverlayConfig {
    fn default() -> (c: Self)
        ensures
            c.show_highlights,
            c.show_countdown,
            c.show_action_preview,
            c.highlight_color == [100u8, 149u8, 237u8, 200u8],
            c.countdown_color == [255u8, 100u8, 100u8, 255u8],
            c.overlay_opacity_percent == 80,
            c.countdown_duration_ms == 3000,
            c.highlight_thickness == 3,
    {
        OverlayConfig {
            show_highlights: true,
            show_countdown: true,
            show_action_preview: true,
            highlight_color: [100, 149, 237, 200],
            countdown_color: [255, 100, 100, 255],
            overlay_opacity_percent: 80,
            countdown_duration_ms: 3000,
            highlight_thickness: 3,
        }
    }
}

/// One mark of the overlay.
#[derive(Debug)]
pub struct OverlayElement {
    pub element_type: OverlayElementType,
    pub x: i32,
    pub y: i32,
    pub width: i32,
    pub height: i32,
    pub text: Option<String>,
    /// RGBA colour.
    pub color: [u8; 4],
    pub visible: bool,
    /// How far the animation has run, in thousandths.
    pub animation_progress: u32,
}

/// The value of a mark: kind, rectangle, text, colour, visibility and
/// progress.
pub type MarkView = (OverlayElementType, int, int, int, int, Option<Seq<char>>, [u8; 4], bool, int);

/// The value of the mark `e`.
pub open spec fn mark_view(e: OverlayElement) -> MarkView {
    (
        e.element_type,
        e.x as int,
        e.y as int,
        e.width as int,
        e.height as int,
        match e.text {
            Some(t) => Some(t@),
            None => None,
        },
        e.color,
        e.visible,
        e.animation_progress as int,
    )
}

/// The values of the marks `s`.
pub open spec fn mark_views(s: Seq<OverlayElement>) -> Seq<MarkView> {
    s.map_values(|e: OverlayElement| mark_view(e))
}

/// A visible mark whose animation has not started.
pub open spec fn fresh(
    kind: OverlayElementType,
    x: int,
    y: int,
    w: int,
    h: int,
    text: Option<Seq<char>>,
    color: [u8; 4],
) -> MarkView {
    (kind, x, y, w, h, text, color, true, 0)
}

/// The texts `keys` joined with `sep` between them.
pub open spec fn joined(keys: Seq<Seq<char>>, sep: Seq<char>) -> Seq<char>
    decreases keys.len(),
{
    if keys.len() == 0 {
        Seq::empty()
    } else if keys.len() == 1 {
        keys[0]
    } else {
        joined(keys.drop_last(), sep) + sep + keys.last()
    }
}

/// The texts of `keys`.
pub open spec fn key_texts(keys: Seq<String>) -> Seq<Seq<char>> {
    keys.map_values(|k: String| k@)
}

/// The coordinates of `action` leave room for its marks.
pub open spec fn markable(action: LunaAction) -> bool {
    match action {
        LunaAction::Click { x, y } => x >= i32::MIN + 25 && y >= i32::MIN + 40,
        _ => true,
    }
}

/// The marks of the action at position `index`: for a click, a circle of
/// 30 around the point numbered `index + 1` and a `Click` label above it;
/// for typing, keys or a wait, a caption; anything else an `Unknown
/// Action` caption.
pub open spec fn action_marks(action: LunaAction, index: int, highlight: [u8; 4]) -> Seq<MarkView> {
    match action {
        LunaAction::Click { x, y } => seq![
            fresh(OverlayElementType::Circle, x - 15, y - 15, 30, 30, Some(decimal((index + 1) as nat)), highlight),
            fresh(OverlayElementType::Text, x - 25, y - 40, 50, 20, Some("Click"@), [255u8, 255u8, 255u8, 255u8]),
        ],
        LunaAction::Type { text } => seq![
            fresh(
                OverlayElementType::Text,
                400,
                300,
                200,
                30,
                Some("Type: \""@ + text@ + "\""@),
                [100u8, 255u8, 100u8, 255u8],
            ),
        ],
        LunaAction::KeyCombo { keys } => seq![
            fresh(
                OverlayElementType::Text,
                400,
                250,
                200,
                30,
                Some("Keys: "@ + joined(key_texts(keys@), " + "@)),
                [255u8, 255u8, 100u8, 255u8],
            ),
        ],
        LunaAction::Wait { milliseconds } => seq![
            fresh(
                OverlayElementType::Text,
                400,
                350,
                200,
                30,
                Some("Wait "@ + decimal(milliseconds as nat) + "ms"@),
                [150u8, 150u8, 150u8, 255u8],
            ),
        ],
        _ => seq![
            fresh(OverlayElementType::Text, 400, 200, 200, 30, Some("Unknown Action"@), [255u8, 255u8, 255u8, 255u8]),
        ],
    }
}

/// The marks of `actions`, each numbered by its position.
pub open spec fn actions_marks(actions: Seq<LunaAction>, highlight: [u8; 4]) -> Seq<MarkView>
    decreases actions.len(),
{
    if actions.len() == 0 {
        Seq::empty()
    } else {
        actions_marks(actions.drop_last(), highlight) + action_marks(actions.last(), actions.len() - 1, highlight)
    }
}

/// The countdown marks: the seconds left, and how to cancel.
pub open spec fn countdown_marks(color: [u8; 4]) -> Seq<MarkView> {
    seq![
        fresh(OverlayElementType::Countdown, 350, 50, 100, 50, Some("3"@), color),
        fresh(OverlayElementType::Text, 250, 110, 300, 30, Some("Press ESC to cancel"@), [255u8, 255u8, 255u8, 180u8]),
    ]
}

/// How long the countdown animation runs, in milliseconds.
pub const ANIMATION_MS: u64 = 3000;

/// How many frames the countdown animation has.
pub const ANIMATION_FRAMES: u32 = 60;

/// Counts of the overlay.
#[derive(Debug, Clone, Copy, PartialEq, Eq)]
pub struct OverlayStats {
    pub visible: bool,
    pub element_count: usize,
    pub animation_active: bool,
    /// Frames shown so far against the animation's frames, in thousandths.
    pub animation_progress: u64,
}

impl OverlayStats {
    /// Whether the overlay shows or animates.
    pub fn is_active(&self) -> (b: bool)
        ensures
            b == (self.visible || self.animation_active),
    {
        self.visible || self.animation_active
    }
}

/// The overlay that previews actions before they run.
pub struct VisualOverlay {
    visible: bool,
    elements: Vec<OverlayElement>,
    config: OverlayConfig,
    start_time: Option<u64>,
    current_frame: u32,
}

fn mark(
    element_type: OverlayElementType,
    x: i32,
    y: i32,
    width: i32,
    height: i32,
    text: String,
    color: [u8; 4],
) -> (e: OverlayElement)
    ensures
        mark_view(e) == fresh(element_type, x as int, y as int, width as int, height as int, Some(text@), color),
{
    OverlayElement { element_type, x, y, width, height, text: Some(text), color, visible: true, animation_progress: 0 }
}

/// `Keys: ` and the keys joined with ` + `.
fn keys_caption(keys: &Vec<String>) -> (s: String)
    ensures
        s@ == "Keys: "@ + joined(key_texts(keys@), " + "@),
{
    let mut s = String::from_str("Keys: ");
    let ghost start = s@;
    let mut i: usize = 0;
    while i < keys.len()
        invariant
            i <= keys@.len(),
            start == "Keys: "@,
            s@ == start + joined(key_texts(keys@).take(i as int), " + "@),
        decreases keys@.len() - i,
    {
        let ghost ks = key_texts(keys@);
        assert(ks.take(i + 1).drop_last() =~= ks.take(i as int));
        assert(ks.take(i + 1).last() == keys@[i as int]@);
        if i > 0 {
            s.append(" + ");
        }
        s.append(keys[i].as_str());
        proof {
            if i == 0 {
                assert(ks.take(1) =~= seq![keys@[0]@]);
                assert(s@ =~= start + joined(ks.take(1), " + "@));
            } else {
                assert(s@ =~= start + joined(ks.take(i + 1), " + "@));
            }
        }
        i = i + 1;
    }
    assert(key_texts(keys@).take(keys@.len() as int) =~= key_texts(keys@));
    s
}

impl VisualOverlay {
    /// Whether the overlay shows.
    pub closed spec fn shown(self) -> bool {
        self.visible
    }

    /// The marks, in drawing order.
    pub closed spec fn marks(self) -> Seq<MarkView> {
        mark_views(self.elements@)
    }

    /// The settings.
    pub closed spec fn settings(self) -> OverlayConfig {
        self.config
    }

    /// When the countdown animation started, if it runs.
    pub closed spec fn animation_start(self) -> Option<u64> {
        self.start_time
    }

    /// Frames of the animation shown so far.
    pub closed spec fn frame(self) -> u32 {
        self.current_frame
    }

    /// A hidden overlay with no marks and the default settings.
    pub fn new() -> (o: Self)
        ensures
            !o.shown(),
            o.marks() == Seq::<MarkView>::empty(),
            o.settings() == (OverlayConfig {
                show_highlights: true,
                show_countdown: true,
                show_action_preview: true,
                highlight_color: [100u8, 149u8, 237u8, 200u8],
                countdown_color: [255u8, 100u8, 100u8, 255u8],
                overlay_opacity_percent: 80,
                countdown_duration_ms: 3000,
                highlight_thickness: 3,
            }),
            o.animation_start() is None,
            o.frame() == 0,
    {
        let o = VisualOverlay {
            visible: false,
            elements: Vec::new(),
            config: OverlayConfig::default(),
            start_time: None,
            current_frame: 0,
        };
        assert(o.marks() =~= Seq::<MarkView>::empty());
        o
    }

    /// Adds the marks of `action`, the one at position `index`.
    fn add_action_highlight(&mut self, action: &LunaAction, index: usize)
        requires
            markable(*action),
            index < usize::MAX,
        ensures
            final(self).marks() == old(self).marks() + action_marks(*action, index as int, old(self).settings().highlight_color),
            final(self).shown() == old(self).shown(),
            final(self).settings() == old(self).settings(),
            final(self).animation_start() == old(self).animation_start(),
            final(self).frame() == old(self).frame(),
    {
        let ghost before = self.marks();
        let ghost marks = action_marks(*action, index as int, self.config.highlight_color);
        match action {
            LunaAction::Click { x, y } => {
                let mut number = String::new();
                append_decimal(&mut number, index as u64 + 1);
                assert(number@ =~= decimal((index + 1) as nat));
                self.elements.push(
                    mark(OverlayElementType::Circle, *x - 15, *y - 15, 30, 30, number, self.config.highlight_color),
                );
                self.elements.push(
                    mark(OverlayElementType::Text, *x - 25, *y - 40, 50, 20, String::from_str("Click"), [255, 255, 255, 255]),
                );
            },
            LunaAction::Type { text } => {
                let mut caption = String::from_str("Type: \"");
                caption.append(text.as_str());
                caption.append("\"");
                self.elements.push(mark(OverlayElementType::Text, 400, 300, 200, 30, caption, [100, 255, 100, 255]));
            },
            LunaAction::KeyCombo { keys } => {
                let caption = keys_caption(keys);
                self.elements.push(mark(OverlayElementType::Text, 400, 250, 200, 30, caption, [255, 255, 100, 255]));
            },
            LunaAction::Wait { milliseconds } => {
                let mut caption = String::from_str("Wait ");
                append_decimal(&mut caption, *milliseconds);
                caption.append("ms");
                self.elements.push(mark(OverlayElementType::Text, 400, 350, 200, 30, caption, [150, 150, 150, 255]));
            },
            _ => {
                self.elements.push(
                    mark(OverlayElementType::Text, 400, 200, 200, 30, String::from_str("Unknown Action"), [255, 255, 255, 255]),
                );
            },
        }
        assert(self.marks() =~= before + marks);
    }

    /// Adds the countdown marks.
    fn add_countdown_timer(&mut self)
        ensures
            final(self).marks() == old(self).marks() + countdown_marks(old(self).settings().countdown_color),
            final(self).shown() == old(self).shown(),
            final(self).settings() == old(self).settings(),
            final(self).animation_start() == old(self).animation_start(),
            final(self).frame() == old(self).frame(),
    {
        let ghost before = self.marks();
        self.elements.push(
            mark(OverlayElementType::Countdown, 350, 50, 100, 50, String::from_str("3"), self.config.countdown_color),
        );
        self.elements.push(
            mark(OverlayElementType::Text, 250, 110, 300, 30, String::from_str("Press ESC to cancel"), [255, 255, 255, 180]),
        );
        assert(self.marks() =~= before + countdown_marks(self.config.countdown_color));
    }
}

impl VisualOverlay {
    /// Shows the marks of `actions`, numbered in order, then the countdown
    /// when the settings ask for it, and starts the countdown animation at
    /// `now_ms`.
    pub fn show_action_preview_at(&mut self, actions: &Vec<LunaAction>, now_ms: u64)
        requires
            forall|i: int| 0 <= i < actions@.len() ==> markable(#[trigger] actions@[i]),
        ensures
            final(self).shown(),
            final(self).marks() == actions_marks(actions@, old(self).settings().highlight_color) + (if old(
                self,
            ).settings().show_countdown {
                countdown_marks(old(self).settings().countdown_color)
            } else {
                Seq::<MarkView>::empty()
            }),
            final(self).settings() == old(self).settings(),
            final(self).animation_start() == Some(now_ms),
            final(self).frame() == 0,
    {
        self.elements.clear();
        assert(self.marks() =~= Seq::<MarkView>::empty());
        let mut i: usize = 0;
        while i < actions.len()
            invariant
                i <= actions@.len(),
                forall|q: int| 0 <= q < actions@.len() ==> markable(#[trigger] actions@[q]),
                self.marks() == actions_marks(actions@.take(i as int), self.config.highlight_color),
                self.config == old(self).config,
            decreases actions@.len() - i,
        {
            assert(actions@.take(i + 1).drop_last() =~= actions@.take(i as int));
            assert(markable(actions@[i as int]));
            self.add_action_highlight(&actions[i], i);
            i = i + 1;
        }
        assert(actions@.take(actions@.len() as int) =~= actions@);
        if self.config.show_countdown {
            self.add_countdown_timer();
        } else {
            assert(self.marks() =~= self.marks() + Seq::<MarkView>::empty());
        }
        self.visible = true;
        self.start_time = Some(now_ms);
        self.current_frame = 0;
    }

    /// Advances the countdown animation to the clock reading `now_ms`:
    /// `false` when none runs, or when it has run its 3 seconds (it then
    /// stops); otherwise sets every mark's progress to the elapsed share,
    /// the countdown marks' text to the seconds left, counts a frame and
    /// gives `true`.
    pub fn update_animation_at(&mut self, now_ms: u64) -> (running: bool)
        ensures
            final(self).shown() == old(self).shown(),
            final(self).settings() == old(self).settings(),
            ({
                match old(self).animation_start() {
                    None => !running && final(self).marks() == old(self).marks() && final(self).animation_start() is None
                        && final(self).frame() == old(self).frame(),
                    Some(t) => {
                        let elapsed = if now_ms >= t { now_ms - t } else { 0 };
                        if elapsed >= ANIMATION_MS {
                            &&& !running
                            &&& final(self).marks() == old(self).marks()
                            &&& final(self).animation_start() is None
                            &&& final(self).frame() == old(self).frame()
                        } else {
                            &&& running
                            &&& final(self).animation_start() == old(self).animation_start()
                            &&& final(self).frame() == (if old(self).frame() < u32::MAX {
                                old(self).frame() + 1
                            } else {
                                old(self).frame() as int
                            })
                            &&& final(self).marks().len() == old(self).marks().len()
                            &&& forall|k: int|
                                0 <= k < old(self).marks().len() ==> #[trigger] final(self).marks()[k] == advanced(
                                    old(self).marks()[k],
                                    elapsed * 1000 / (ANIMATION_MS as int),
                                    (ANIMATION_MS - elapsed) / 1000 + 1,
                                )
                        }
                    },
                }
            }),
    {
        match self.start_time {
            None => false,
            Some(t) => {
                let elapsed = now_ms.saturating_sub(t);
                if elapsed >= ANIMATION_MS {
                    self.start_time = None;
                    return false;
                }
                let progress = (elapsed * 1000 / ANIMATION_MS) as u32;
                let remaining = (ANIMATION_MS - elapsed) / 1000 + 1;
                let ghost before = self.marks();
                let n = self.elements.len();
                let mut k: usize = 0;
                while k < n
                    invariant
                        k <= n,
                        n == before.len(),
                        self.elements@.len() == n,
                        progress == elapsed * 1000 / (ANIMATION_MS as int),
                        forall|q: int| 0 <= q < k ==> #[trigger] mark_views(self.elements@)[q] == advanced(before[q], progress as int, remaining as int),
                        forall|q: int| k <= q < n ==> #[trigger] mark_views(self.elements@)[q] == before[q],
                        self.visible == old(self).visible,
                        self.config == old(self).config,
                        self.start_time == old(self).start_time,
                        self.current_frame == old(self).current_frame,
                    decreases n - k,
                {
                    let ghost prev = self.elements@;
                    assert(mark_views(prev)[k as int] == mark_view(prev[k as int]));
                    assert(mark_views(prev)[k as int] == before[k as int]);
                    let mut e = self.elements.remove(k);
                    assert(mark_view(e) == before[k as int]);
                    e.animation_progress = progress;
                    if e.element_type == OverlayElementType::Countdown {
                        let mut text = String::new();
                        append_decimal(&mut text, remaining);
                        assert(text@ =~= decimal(remaining as nat));
                        e.text = Some(text);
                    }
                    self.elements.insert(k, e);
                    assert forall|q: int| 0 <= q < n && q != k implies #[trigger] mark_views(self.elements@)[q] == mark_views(prev)[q] by {
                        assert(self.elements@[q] == prev[q]);
                    }
                    assert(mark_views(self.elements@)[k as int] == mark_view(self.elements@[k as int]));
                    k = k + 1;
                }
                self.current_frame = self.current_frame.saturating_add(1);
                proof {
                    assert forall|q: int| 0 <= q < before.len() implies #[trigger] self.marks()[q] == advanced(
                        before[q],
                        elapsed * 1000 / (ANIMATION_MS as int),
                        (ANIMATION_MS - elapsed) / 1000 + 1,
                    ) by {
                        assert(mark_views(self.elements@)[q] == advanced(before[q], progress as int, remaining as int));
                    }
                }
                true
            },
        }
    }
}

/// The mark `m` at the animation progress `progress` (thousandths), with
/// `seconds` left shown on a countdown.
pub open spec fn advanced(m: MarkView, progress: int, seconds: int) -> MarkView {
    (
        m.0,
        m.1,
        m.2,
        m.3,
        m.4,
        if m.0 == OverlayElementType::Countdown {
            Some(decimal(seconds as nat))
        } else {
            m.5
        },
        m.6,
        m.7,
        progress,
    )
}

/// The marks previewing the detected `elements`: a highlight of each,
/// green for buttons, links and icons and yellow otherwise, with its text;
/// the first ten also get a label of their kind and confidence above them.
pub open spec fn detection_marks(elements: Seq<ScreenElement>) -> Seq<MarkView>
    decreases elements.len(),
{
    if elements.len() == 0 {
        Seq::empty()
    } else {
        let i = elements.len() - 1;
        let e = elements.last();
        let highlight = fresh(
            OverlayElementType::Highlight,
            e.bounds.x as int,
            e.bounds.y as int,
            e.bounds.width as int,
            e.bounds.height as int,
            match e.text {
                Some(t) => Some(t@),
                None => None,
            },
            if is_clickable_type(e.element_type@) {
                [0u8, 255u8, 0u8, 150u8]
            } else {
                [255u8, 255u8, 0u8, 150u8]
            },
        );
        let label = fresh(
            OverlayElementType::Text,
            e.bounds.x as int,
            e.bounds.y - 20,
            100,
            20,
            Some(e.element_type@ + ": "@ + decimal(e.confidence as nat) + ".0%"@),
            [255u8, 255u8, 255u8, 255u8],
        );
        detection_marks(elements.drop_last()) + if i < 10 {
            seq![highlight, label]
        } else {
            seq![highlight]
        }
    }
}

impl VisualOverlay {
    /// Hides the overlay, drops its marks and stops the animation.
    pub fn hide_overlay(&mut self)
        ensures
            !final(self).shown(),
            final(self).marks() == Seq::<MarkView>::empty(),
            final(self).animation_start() is None,
            final(self).settings() == old(self).settings(),
            final(self).frame() == old(self).frame(),
    {
        self.visible = false;
        self.elements.clear();
        self.start_time = None;
        assert(self.marks() =~= Seq::<MarkView>::empty());
    }

    /// Hides the overlay at once, as `hide_overlay` does.
    pub fn force_hide(&mut self)
        ensures
            !final(self).shown(),
            final(self).marks() == Seq::<MarkView>::empty(),
            final(self).animation_start() is None,
            final(self).settings() == old(self).settings(),
            final(self).frame() == old(self).frame(),
    {
        self.hide_overlay();
    }

    /// Whether the overlay shows.
    pub fn is_visible(&self) -> (b: bool)
        ensures
            b == self.shown(),
    {
        self.visible
    }

    /// The marks.
    pub fn get_elements(&self) -> (s: &[OverlayElement])
        ensures
            mark_views(s@) == self.marks(),
    {
        self.elements.as_slice()
    }

    /// Takes `config` into use.
    pub fn set_config(&mut self, config: OverlayConfig)
        ensures
            final(self).settings() == config,
            final(self).shown() == old(self).shown(),
            final(self).marks() == old(self).marks(),
            final(self).animation_start() == old(self).animation_start(),
            final(self).frame() == old(self).frame(),
    {
        self.config = config;
    }

    /// Whether the overlay shows, how many marks it has, whether the
    /// animation runs, and how far its frames have got, in thousandths of
    /// the animation's 60.
    pub fn get_stats(&self) -> (st: OverlayStats)
        ensures
            st.visible == self.shown(),
            st.element_count == self.marks().len(),
            st.animation_active == (self.animation_start() is Some),
            st.animation_progress == self.frame() as int * 1000 / (ANIMATION_FRAMES as int),
    {
        OverlayStats {
            visible: self.visible,
            element_count: self.elements.len(),
            animation_active: self.start_time.is_some(),
            animation_progress: self.current_frame as u64 * 1000 / ANIMATION_FRAMES as u64,
        }
    }

    /// Shows `detection_marks(elements)`; the caller hides the overlay
    /// again after five seconds.
    pub fn show_detection_preview(&mut self, elements: &Vec<ScreenElement>)
        requires
            forall|i: int| 0 <= i < elements@.len() && i < 10 ==> (#[trigger] elements@[i]).bounds.y >= i32::MIN + 20,
        ensures
            final(self).shown(),
            final(self).marks() == detection_marks(elements@),
            final(self).settings() == old(self).settings(),
            final(self).animation_start() == old(self).animation_start(),
            final(self).frame() == old(self).frame(),
    {
        self.elements.clear();
        assert(self.marks() =~= Seq::<MarkView>::empty());
        let mut i: usize = 0;
        while i < elements.len()
            invariant
                i <= elements@.len(),
                forall|q: int| 0 <= q < elements@.len() && q < 10 ==> (#[trigger] elements@[q]).bounds.y >= i32::MIN + 20,
                self.marks() == detection_marks(elements@.take(i as int)),
                self.config == old(self).config,
                self.start_time == old(self).start_time,
                self.current_frame == old(self).current_frame,
            decreases elements@.len() - i,
        {
            let ghost before = self.marks();
            assert(elements@.take(i + 1).drop_last() =~= elements@.take(i as int));
            let e = &elements[i];
            let t = e.element_type.as_str();
            let clickable = str_eq(t, "button") || str_eq(t, "link") || str_eq(t, "icon");
            let color: [u8; 4] = if clickable {
                [0, 255, 0, 150]
            } else {
                [255, 255, 0, 150]
            };
            let text = match &e.text {
                Some(s) => Some(s.clone()),
                None => None,
            };
            self.elements.push(
                OverlayElement {
                    element_type: OverlayElementType::Highlight,
                    x: e.bounds.x,
                    y: e.bounds.y,
                    width: e.bounds.width,
                    height: e.bounds.height,
                    text,
                    color,
                    visible: true,
                    animation_progress: 0,
                },
            );
            if i < 10 {
                let mut label = e.element_type.clone();
                label.append(": ");
                append_decimal(&mut label, e.confidence as u64);
                label.append(".0%");
                self.elements.push(mark(OverlayElementType::Text, e.bounds.x, e.bounds.y - 20, 100, 20, label, [255, 255, 255, 255]));
            }
            assert(self.marks() =~= detection_marks(elements@.take(i + 1)));
            i = i + 1;
        }
        assert(elements@.take(elements@.len() as int) =~= elements@);
        self.visible = true;
    }
}

} // verus!
