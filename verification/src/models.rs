//! The segmentation and text-region models as they stand here: each lays a
//! fixed set of typical window elements (buttons, fields, navigation,
//! scroll bars, icons, captions) over a screen of the given size, keeping
//! those that fit.

use vstd::prelude::*;
use vstd::string::StringExecFns;
use crate::ai::{ElementView, ScreenElement, element_view, views};
use crate::safety::ElementBounds;
use crate::text::{append_decimal, decimal, str_eq};
use crate::preview::{joined, key_texts};

verus! {

/// The value of a detection of kind `kind` over the rectangle
/// `(x, y, w, h)`.
pub open spec fn det(
    kind: Seq<char>,
    x: int,
    y: int,
    w: int,
    h: int,
    conf: u32,
    text: Option<Seq<char>>,
    attrs: Seq<(Seq<char>, Seq<char>)>,
) -> ElementView {
    (kind, ElementBounds { x: x as i32, y: y as i32, width: w as i32, height: h as i32 }, conf, text, attrs)
}

/// `v` when `keep`, else nothing.
pub open spec fn when(keep: bool, v: Seq<ElementView>) -> Seq<ElementView> {
    if keep {
        v
    } else {
        Seq::empty()
    }
}

/// The rectangle `(x, y, w, h)` lies strictly inside a `sw` x `sh`
/// screen, off its top and left edges.
pub open spec fn inside(x: int, y: int, w: int, h: int, sw: int, sh: int) -> bool {
    x > 0 && y > 0 && x + w < sw && y + h < sh
}

/// A segmented button.
pub open spec fn sam_button(x: int, y: int, w: int, h: int, text: Seq<char>, sw: int, sh: int) -> Seq<ElementView> {
    when(
        inside(x, y, w, h, sw, sh),
        seq![
            det(
                "button"@,
                x,
                y,
                w,
                h,
                90,
                Some(text),
                seq![
                    ("segmentation_quality"@, "high"@),
                    ("precise_bounds"@, "true"@),
                    ("clickable_area"@, decimal((w * h) as nat)),
                ],
            ),
        ],
    )
}

/// A segmented input field.
pub open spec fn sam_input(x: int, y: int, w: int, h: int, kind: Seq<char>, sh: int) -> Seq<ElementView> {
    when(
        y + h < sh,
        seq![
            det(
                "input"@,
                x,
                y,
                w,
                h,
                85,
                None,
                seq![("input_type"@, kind), ("segmentation_quality"@, "high"@), ("interactive"@, "true"@)],
            ),
        ],
    )
}

/// A navigation item, the `i`-th of the bar.
pub open spec fn sam_nav_item(i: nat, text: Seq<char>) -> ElementView {
    det(
        "nav_item"@,
        20 + 120 * (i as int),
        12,
        100,
        26,
        88,
        Some(text),
        seq![("nav_index"@, decimal(i)), ("clickable"@, "true"@), ("hover_area"@, "precise"@)],
    )
}

/// A segmented icon.
pub open spec fn sam_icon(x: int, y: int, w: int, h: int, kind: Seq<char>, sw: int, sh: int) -> Seq<ElementView> {
    when(
        inside(x, y, w, h, sw, sh),
        seq![
            det(
                "icon"@,
                x,
                y,
                w,
                h,
                90,
                None,
                seq![("icon_type"@, kind), ("pixel_perfect"@, "true"@), ("small_target"@, "true"@)],
            ),
        ],
    )
}

/// What the segmentation model finds on a `w` x `h` screen, in order:
/// four buttons where they fit; three input fields on screens over
/// 400 x 300; a navigation bar and its four items on screens over 600
/// wide; a dropdown on screens over 300 x 200; a scroll bar and its thumb
/// on screens over 400 high; four window icons where they fit.
pub open spec fn segmentation(w: int, h: int) -> Seq<ElementView> {
    sam_button(w / 2 - 50, h / 2 - 20, 100, 40, "Primary Button"@, w, h)
        + sam_button(w / 2 - 80, h / 2 + 40, 70, 35, "Secondary"@, w, h)
        + sam_button(w - 80, 10, 70, 30, "Close"@, w, h)
        + sam_button(20, h - 50, 80, 35, "Back"@, w, h)
        + when(
        w > 400 && h > 300,
        sam_input(w / 4, h / 3, w / 2, 35, "text"@, h)
            + sam_input(w / 4, h / 3 + 60, w / 2, 35, "password"@, h)
            + sam_input(w / 4, h / 3 + 120, w / 2, 80, "textarea"@, h),
    ) + when(
        w > 600,
        seq![
            det(
                "navbar"@,
                0,
                0,
                w,
                50,
                95,
                None,
                seq![("segmentation_quality"@, "precise"@), ("container"@, "true"@)],
            ),
            sam_nav_item(0, "Home"@),
            sam_nav_item(1, "Products"@),
            sam_nav_item(2, "About"@),
            sam_nav_item(3, "Contact"@),
        ],
    ) + when(
        w > 300 && h > 200,
        seq![
            det(
                "dropdown"@,
                w / 3,
                h / 4,
                150,
                30,
                80,
                Some("Select Option"@),
                seq![
                    ("state"@, "closed"@),
                    ("expandable"@, "true"@),
                    ("arrow_bounds"@, decimal((w / 3 + 130) as nat) + ","@ + decimal((h / 4 + 8) as nat) + ",15,15"@),
                ],
            ),
        ],
    ) + when(
        h > 400,
        seq![
            det(
                "scrollbar"@,
                w - 15,
                50,
                15,
                h - 100,
                75,
                None,
                seq![("orientation"@, "vertical"@), ("draggable"@, "true"@), ("thumb_position"@, "25%"@)],
            ),
            det(
                "scroll_thumb"@,
                w - 13,
                100,
                11,
                50,
                82,
                None,
                seq![("parent"@, "scrollbar"@), ("draggable"@, "true"@)],
            ),
        ],
    ) + sam_icon(10, 10, 24, 24, "app_icon"@, w, h) + sam_icon(w - 100, 10, 20, 20, "minimize"@, w, h) + sam_icon(
        w - 75,
        10,
        20,
        20,
        "maximize"@,
        w,
        h,
    ) + sam_icon(w - 50, 10, 20, 20, "close"@, w, h)
}

fn pair(k: &str, v: &str) -> (p: (String, String))
    ensures
        p.0@ == k@,
        p.1@ == v@,
{
    (String::from_str(k), String::from_str(v))
}

fn detection(
    kind: &str,
    x: i32,
    y: i32,
    w: i32,
    h: i32,
    confidence: u32,
    text: Option<String>,
    attributes: Vec<(String, String)>,
) -> (e: ScreenElement)
    ensures
        e.element_type@ == kind@,
        e.bounds == (ElementBounds { x, y, width: w, height: h }),
        e.confidence == confidence,
        e.text == text,
        e.attributes == attributes,
{
    ScreenElement {
        element_type: String::from_str(kind),
        bounds: ElementBounds { x, y, width: w, height: h },
        confidence,
        text,
        attributes,
    }
}

/// A detection with two attributes.
fn det2(
    kind: &str,
    x: i32,
    y: i32,
    w: i32,
    h: i32,
    confidence: u32,
    text: Option<String>,
    k1: &str,
    v1: String,
    k2: &str,
    v2: String,
) -> (e: ScreenElement)
    ensures
        element_view(e) == det(
            kind@,
            x as int,
            y as int,
            w as int,
            h as int,
            confidence,
            match text {
                Some(t) => Some(t@),
                None => None,
            },
            seq![(k1@, v1@), (k2@, v2@)],
        ),
{
    let ghost a1 = (k1@, v1@);
    let ghost a2 = (k2@, v2@);
    let mut attributes: Vec<(String, String)> = Vec::new();
    attributes.push((String::from_str(k1), v1));
    attributes.push((String::from_str(k2), v2));
    let e = detection(kind, x, y, w, h, confidence, text, attributes);
    assert(crate::ai::attributes_view(e) =~= seq![a1, a2]);
    e
}

/// A detection with three attributes.
fn det3(
    kind: &str,
    x: i32,
    y: i32,
    w: i32,
    h: i32,
    confidence: u32,
    text: Option<String>,
    k1: &str,
    v1: String,
    k2: &str,
    v2: String,
    k3: &str,
    v3: String,
) -> (e: ScreenElement)
    ensures
        element_view(e) == det(
            kind@,
            x as int,
            y as int,
            w as int,
            h as int,
            confidence,
            match text {
                Some(t) => Some(t@),
                None => None,
            },
            seq![(k1@, v1@), (k2@, v2@), (k3@, v3@)],
        ),
{
    let ghost a1 = (k1@, v1@);
    let ghost a2 = (k2@, v2@);
    let ghost a3 = (k3@, v3@);
    let mut attributes: Vec<(String, String)> = Vec::new();
    attributes.push((String::from_str(k1), v1));
    attributes.push((String::from_str(k2), v2));
    attributes.push((String::from_str(k3), v3));
    let e = detection(kind, x, y, w, h, confidence, text, attributes);
    assert(crate::ai::attributes_view(e) =~= seq![a1, a2, a3]);
    e
}

fn decimal_text(n: u64) -> (s: String)
    ensures
        s@ == decimal(n as nat),
{
    let mut s = String::new();
    append_decimal(&mut s, n);
    assert(s@ =~= decimal(n as nat));
    s
}

fn push_view(v: &mut Vec<ScreenElement>, e: ScreenElement)
    ensures
        views(final(v)@) == views(old(v)@).push(element_view(e)),
{
    v.push(e);
    assert(views(final(v)@) =~= views(old(v)@).push(element_view(e)));
}

fn push_sam_button(v: &mut Vec<ScreenElement>, x: i32, y: i32, w: i32, h: i32, text: &str, sw: i32, sh: i32)
    requires
        0 <= w <= 100,
        0 <= h <= 100,
    ensures
        views(final(v)@) == views(old(v)@) + sam_button(x as int, y as int, w as int, h as int, text@, sw as int, sh as int),
{
    if x > 0 && y > 0 && (x as i64 + w as i64) < sw as i64 && (y as i64 + h as i64) < sh as i64 {
        assert(w * h <= 100 * 100) by (nonlinear_arith)
            requires
                0 <= w <= 100,
                0 <= h <= 100,
        ;
        let area = decimal_text((w * h) as u64);
        let e = det3(
            "button",
            x,
            y,
            w,
            h,
            90,
            Some(String::from_str(text)),
            "segmentation_quality",
            String::from_str("high"),
            "precise_bounds",
            String::from_str("true"),
            "clickable_area",
            area,
        );
        push_view(v, e);
        assert(views(final(v)@) =~= views(old(v)@) + sam_button(x as int, y as int, w as int, h as int, text@, sw as int, sh as int));
    } else {
        assert(views(old(v)@) =~= views(old(v)@) + sam_button(x as int, y as int, w as int, h as int, text@, sw as int, sh as int));
    }
}

fn push_sam_input(v: &mut Vec<ScreenElement>, x: i32, y: i32, w: i32, h: i32, kind: &str, sh: i32)
    ensures
        views(final(v)@) == views(old(v)@) + sam_input(x as int, y as int, w as int, h as int, kind@, sh as int),
{
    if (y as i64 + h as i64) < sh as i64 {
        let e = det3(
            "input",
            x,
            y,
            w,
            h,
            85,
            None,
            "input_type",
            String::from_str(kind),
            "segmentation_quality",
            String::from_str("high"),
            "interactive",
            String::from_str("true"),
        );
        push_view(v, e);
        assert(views(final(v)@) =~= views(old(v)@) + sam_input(x as int, y as int, w as int, h as int, kind@, sh as int));
    } else {
        assert(views(old(v)@) =~= views(old(v)@) + sam_input(x as int, y as int, w as int, h as int, kind@, sh as int));
    }
}

fn push_sam_icon(v: &mut Vec<ScreenElement>, x: i32, y: i32, w: i32, h: i32, kind: &str, sw: i32, sh: i32)
    ensures
        views(final(v)@) == views(old(v)@) + sam_icon(x as int, y as int, w as int, h as int, kind@, sw as int, sh as int),
{
    if x > 0 && y > 0 && (x as i64 + w as i64) < sw as i64 && (y as i64 + h as i64) < sh as i64 {
        let e = det3(
            "icon",
            x,
            y,
            w,
            h,
            90,
            None,
            "icon_type",
            String::from_str(kind),
            "pixel_perfect",
            String::from_str("true"),
            "small_target",
            String::from_str("true"),
        );
        push_view(v, e);
        assert(views(final(v)@) =~= views(old(v)@) + sam_icon(x as int, y as int, w as int, h as int, kind@, sw as int, sh as int));
    } else {
        assert(views(old(v)@) =~= views(old(v)@) + sam_icon(x as int, y as int, w as int, h as int, kind@, sw as int, sh as int));
    }
}

fn push_nav_item(v: &mut Vec<ScreenElement>, i: u64, text: &str)
    requires
        i < 4,
    ensures
        views(final(v)@) == views(old(v)@).push(sam_nav_item(i as nat, text@)),
{
    let index = decimal_text(i);
    let e = det3(
        "nav_item",
        20 + 120 * (i as i32),
        12,
        100,
        26,
        88,
        Some(String::from_str(text)),
        "nav_index",
        index,
        "clickable",
        String::from_str("true"),
        "hover_area",
        String::from_str("precise"),
    );
    push_view(v, e);
}

/// The segmentation model: finds window elements with tight bounds.
pub struct SAMModel {
    loaded: bool,
}

impl SAMModel {
    /// Whether the model is loaded.
    pub closed spec fn is_ready(self) -> bool {
        self.loaded
    }

    /// A loaded model.
    pub fn new() -> (m: Self)
        ensures
            m.is_ready(),
    {
        let mut m = SAMModel { loaded: false };
        m.load();
        m
    }

    /// The model's name.
    pub fn name(&self) -> (s: &'static str)
        ensures
            s@ == "SAM"@,
    {
        "SAM"
    }

    /// Whether the model is loaded.
    pub fn is_loaded(&self) -> (b: bool)
        ensures
            b == self.is_ready(),
    {
        self.loaded
    }

    /// Loads the model.
    pub fn load(&mut self)
        ensures
            final(self).is_ready(),
    {
        self.loaded = true;
    }

    /// Unloads the model.
    pub fn unload(&mut self)
        ensures
            !final(self).is_ready(),
    {
        self.loaded = false;
    }

    /// The elements found on a `width` x `height` screen:
    /// `segmentation(width, height)`.
    pub fn segment_ui_elements(&self, width: u32, height: u32) -> (r: Vec<ScreenElement>)
        requires
            width <= i32::MAX,
            height <= i32::MAX,
        ensures
            views(r@) == segmentation(width as int, height as int),
    {
        let w = width as i32;
        let h = height as i32;
        let ghost (wi, hi) = (w as int, h as int);
        let mut v: Vec<ScreenElement> = Vec::new();
        assert(views(v@) =~= Seq::<ElementView>::empty());
        push_sam_button(&mut v, w / 2 - 50, h / 2 - 20, 100, 40, "Primary Button", w, h);
        push_sam_button(&mut v, w / 2 - 80, h / 2 + 40, 70, 35, "Secondary", w, h);
        push_sam_button(&mut v, w - 80, 10, 70, 30, "Close", w, h);
        push_sam_button(&mut v, 20, h - 50, 80, 35, "Back", w, h);
        let ghost a = views(v@);
        if w > 400 && h > 300 {
            push_sam_input(&mut v, w / 4, h / 3, w / 2, 35, "text", h);
            push_sam_input(&mut v, w / 4, h / 3 + 60, w / 2, 35, "password", h);
            push_sam_input(&mut v, w / 4, h / 3 + 120, w / 2, 80, "textarea", h);
        }
        assert(views(v@) =~= a + when(
            wi > 400 && hi > 300,
            sam_input(wi / 4, hi / 3, wi / 2, 35, "text"@, hi) + sam_input(wi / 4, hi / 3 + 60, wi / 2, 35, "password"@, hi)
                + sam_input(wi / 4, hi / 3 + 120, wi / 2, 80, "textarea"@, hi),
        ));
        let ghost b = views(v@);
        if w > 600 {
            let e = det2(
                "navbar",
                0,
                0,
                w,
                50,
                95,
                None,
                "segmentation_quality",
                String::from_str("precise"),
                "container",
                String::from_str("true"),
            );
            push_view(&mut v, e);
            push_nav_item(&mut v, 0, "Home");
            push_nav_item(&mut v, 1, "Products");
            push_nav_item(&mut v, 2, "About");
            push_nav_item(&mut v, 3, "Contact");
        }
        assert(views(v@) =~= b + when(
            wi > 600,
            seq![
                det(
                    "navbar"@,
                    0,
                    0,
                    wi,
                    50,
                    95,
                    None,
                    seq![("segmentation_quality"@, "precise"@), ("container"@, "true"@)],
                ),
                sam_nav_item(0, "Home"@),
                sam_nav_item(1, "Products"@),
                sam_nav_item(2, "About"@),
                sam_nav_item(3, "Contact"@),
            ],
        ));
        let ghost c = views(v@);
        if w > 300 && h > 200 {
            let mut arrow = decimal_text((w / 3 + 130) as u64);
            arrow.append(",");
            append_decimal(&mut arrow, (h / 4 + 8) as u64);
            arrow.append(",15,15");
            let e = det3(
                "dropdown",
                w / 3,
                h / 4,
                150,
                30,
                80,
                Some(String::from_str("Select Option")),
                "state",
                String::from_str("closed"),
                "expandable",
                String::from_str("true"),
                "arrow_bounds",
                arrow,
            );
            push_view(&mut v, e);
        }
        assert(views(v@) =~= c + when(
            wi > 300 && hi > 200,
            seq![
                det(
                    "dropdown"@,
                    wi / 3,
                    hi / 4,
                    150,
                    30,
                    80,
                    Some("Select Option"@),
                    seq![
                        ("state"@, "closed"@),
                        ("expandable"@, "true"@),
                        ("arrow_bounds"@, decimal((wi / 3 + 130) as nat) + ","@ + decimal((hi / 4 + 8) as nat) + ",15,15"@),
                    ],
                ),
            ],
        ));
        let ghost d = views(v@);
        if h > 400 {
            let e = det3(
                "scrollbar",
                w - 15,
                50,
                15,
                h - 100,
                75,
                None,
                "orientation",
                String::from_str("vertical"),
                "draggable",
                String::from_str("true"),
                "thumb_position",
                String::from_str("25%"),
            );
            push_view(&mut v, e);
            let t = det2(
                "scroll_thumb",
                w - 13,
                100,
                11,
                50,
                82,
                None,
                "parent",
                String::from_str("scrollbar"),
                "draggable",
                String::from_str("true"),
            );
            push_view(&mut v, t);
        }
        assert(views(v@) =~= d + when(
            hi > 400,
            seq![
                det(
                    "scrollbar"@,
                    wi - 15,
                    50,
                    15,
                    hi - 100,
                    75,
                    None,
                    seq![("orientation"@, "vertical"@), ("draggable"@, "true"@), ("thumb_position"@, "25%"@)],
                ),
                det(
                    "scroll_thumb"@,
                    wi - 13,
                    100,
                    11,
                    50,
                    82,
                    None,
                    seq![("parent"@, "scrollbar"@), ("draggable"@, "true"@)],
                ),
            ],
        ));
        push_sam_icon(&mut v, 10, 10, 24, 24, "app_icon", w, h);
        push_sam_icon(&mut v, w - 100, 10, 20, 20, "minimize", w, h);
        push_sam_icon(&mut v, w - 75, 10, 20, 20, "maximize", w, h);
        push_sam_icon(&mut v, w - 50, 10, 20, 20, "close", w, h);
        v
    }
}

/// A button caption at `(x, y)`, 8 pixels per character, where it fits.
pub open spec fn ocr_button(text: Seq<char>, x: int, y: int, sw: int, sh: int) -> Seq<ElementView> {
    when(
        x > 0 && y > 0 && x < sw - 50 && y < sh - 30,
        seq![
            det(
                "text"@,
                x,
                y,
                text.len() as int * 8,
                20,
                85,
                Some(text),
                seq![("type"@, "button_text"@), ("clickable"@, "true"@)],
            ),
        ],
    )
}

/// The `i`-th menu caption, where it fits.
pub open spec fn ocr_menu(i: nat, text: Seq<char>, sw: int) -> Seq<ElementView> {
    when(
        20 + 60 * (i as int) < sw - 40,
        seq![
            det(
                "text"@,
                20 + 60 * (i as int),
                35,
                40,
                18,
                80,
                Some(text),
                seq![("type"@, "menu_text"@), ("menu_index"@, decimal(i))],
            ),
        ],
    )
}

/// A form label at `(x, y)`, where it fits.
pub open spec fn ocr_label(text: Seq<char>, x: int, y: int, sh: int) -> Seq<ElementView> {
    when(
        y > 0 && y < sh - 25,
        seq![
            det(
                "text"@,
                x,
                y,
                text.len() as int * 8,
                18,
                75,
                Some(text),
                seq![("type"@, "label"@), ("form_field"@, "true"@)],
            ),
        ],
    )
}

/// What the text-region model reads on a `w` x `h` screen, in order: the
/// window title on screens over 100 high; five button captions and five
/// menu captions where they fit; three form labels on screens over
/// 300 x 300; the status line on screens over 200 high; a tooltip.
pub open spec fn text_regions(w: int, h: int) -> Seq<ElementView> {
    when(
        h > 100,
        seq![
            det(
                "text"@,
                40,
                10,
                w - 80,
                25,
                90,
                Some("Application Window - Luna Visual AI"@),
                seq![("type"@, "window_title"@), ("font_size"@, "14"@)],
            ),
        ],
    ) + ocr_button("Save"@, w / 2 - 30, h / 2 - 100, w, h) + ocr_button("Cancel"@, w / 2 + 40, h / 2 - 100, w, h)
        + ocr_button("OK"@, w / 2 - 15, h / 2 - 50, w, h) + ocr_button("Apply"@, w / 2 - 25, h / 2, w, h) + ocr_button(
        "Close"@,
        w - 60,
        15,
        w,
        h,
    ) + ocr_menu(0, "File"@, w) + ocr_menu(1, "Edit"@, w) + ocr_menu(2, "View"@, w) + ocr_menu(3, "Tools"@, w)
        + ocr_menu(4, "Help"@, w) + when(
        w > 300 && h > 300,
        ocr_label("Username:"@, w / 4, h / 3 - 25, h) + ocr_label("Password:"@, w / 4, h / 3 + 35, h) + ocr_label(
            "Email:"@,
            w / 4,
            h / 3 + 95,
            h,
        ),
    ) + when(
        h > 200,
        seq![
            det(
                "text"@,
                10,
                h - 25,
                w / 2,
                16,
                70,
                Some("Ready - Luna Visual AI is active"@),
                seq![("type"@, "status_text"@)],
            ),
        ],
    ) + seq![
        det(
            "text"@,
            w / 2 - 100,
            h - 60,
            200,
            14,
            65,
            Some("Hover for more information"@),
            seq![("type"@, "tooltip"@), ("font_size"@, "12"@)],
        ),
    ]
}

/// A detection with one attribute.
fn det1(
    kind: &str,
    x: i32,
    y: i32,
    w: i32,
    h: i32,
    confidence: u32,
    text: Option<String>,
    k1: &str,
    v1: String,
) -> (e: ScreenElement)
    ensures
        element_view(e) == det(
            kind@,
            x as int,
            y as int,
            w as int,
            h as int,
            confidence,
            match text {
                Some(t) => Some(t@),
                None => None,
            },
            seq![(k1@, v1@)],
        ),
{
    let ghost a1 = (k1@, v1@);
    let mut attributes: Vec<(String, String)> = Vec::new();
    attributes.push((String::from_str(k1), v1));
    let e = detection(kind, x, y, w, h, confidence, text, attributes);
    assert(crate::ai::attributes_view(e) =~= seq![a1]);
    e
}

fn push_ocr_button(v: &mut Vec<ScreenElement>, text: &str, x: i32, y: i32, sw: i32, sh: i32)
    requires
        text@.len() <= 8,
        sw >= 0,
        sh >= 0,
    ensures
        views(final(v)@) == views(old(v)@) + ocr_button(text@, x as int, y as int, sw as int, sh as int),
{
    if x > 0 && y > 0 && x < sw - 50 && y < sh - 30 {
        let width = (crate::text::chars_of(text).len() * 8) as i32;
        let e = det2(
            "text",
            x,
            y,
            width,
            20,
            85,
            Some(String::from_str(text)),
            "type",
            String::from_str("button_text"),
            "clickable",
            String::from_str("true"),
        );
        push_view(v, e);
        assert(views(final(v)@) =~= views(old(v)@) + ocr_button(text@, x as int, y as int, sw as int, sh as int));
    } else {
        assert(views(old(v)@) =~= views(old(v)@) + ocr_button(text@, x as int, y as int, sw as int, sh as int));
    }
}

fn push_ocr_menu(v: &mut Vec<ScreenElement>, i: u64, text: &str, sw: i32)
    requires
        i < 5,
        sw >= 0,
    ensures
        views(final(v)@) == views(old(v)@) + ocr_menu(i as nat, text@, sw as int),
{
    let x = 20 + 60 * (i as i32);
    if x < sw - 40 {
        let index = decimal_text(i);
        let e = det2(
            "text",
            x,
            35,
            40,
            18,
            80,
            Some(String::from_str(text)),
            "type",
            String::from_str("menu_text"),
            "menu_index",
            index,
        );
        push_view(v, e);
        assert(views(final(v)@) =~= views(old(v)@) + ocr_menu(i as nat, text@, sw as int));
    } else {
        assert(views(old(v)@) =~= views(old(v)@) + ocr_menu(i as nat, text@, sw as int));
    }
}

fn push_ocr_label(v: &mut Vec<ScreenElement>, text: &str, x: i32, y: i32, sh: i32)
    requires
        text@.len() <= 9,
        sh >= 0,
    ensures
        views(final(v)@) == views(old(v)@) + ocr_label(text@, x as int, y as int, sh as int),
{
    if y > 0 && y < sh - 25 {
        let width = (crate::text::chars_of(text).len() * 8) as i32;
        let e = det2(
            "text",
            x,
            y,
            width,
            18,
            75,
            Some(String::from_str(text)),
            "type",
            String::from_str("label"),
            "form_field",
            String::from_str("true"),
        );
        push_view(v, e);
        assert(views(final(v)@) =~= views(old(v)@) + ocr_label(text@, x as int, y as int, sh as int));
    } else {
        assert(views(old(v)@) =~= views(old(v)@) + ocr_label(text@, x as int, y as int, sh as int));
    }
}

/// The text-region model: finds and reads the captions of a window.
pub struct TrOCRModel {
    loaded: bool,
}

impl TrOCRModel {
    /// Whether the model is loaded.
    pub closed spec fn is_ready(self) -> bool {
        self.loaded
    }

    /// A loaded model.
    pub fn new() -> (m: Self)
        ensures
            m.is_ready(),
    {
        let mut m = TrOCRModel { loaded: false };
        m.load();
        m
    }

    /// The model's name.
    pub fn name(&self) -> (s: &'static str)
        ensures
            s@ == "TrOCR"@,
    {
        "TrOCR"
    }

    /// Whether the model is loaded.
    pub fn is_loaded(&self) -> (b: bool)
        ensures
            b == self.is_ready(),
    {
        self.loaded
    }

    /// Loads the model.
    pub fn load(&mut self)
        ensures
            final(self).is_ready(),
    {
        self.loaded = true;
    }

    /// Unloads the model.
    pub fn unload(&mut self)
        ensures
            !final(self).is_ready(),
    {
        self.loaded = false;
    }

    /// The text regions read on a `width` x `height` screen:
    /// `text_regions(width, height)`.
    pub fn detect_text_regions(&self, width: u32, height: u32) -> (r: Vec<ScreenElement>)
        requires
            width <= i32::MAX,
            height <= i32::MAX,
        ensures
            views(r@) == text_regions(width as int, height as int),
    {
        let w = width as i32;
        let h = height as i32;
        let ghost (wi, hi) = (w as int, h as int);
        let mut v: Vec<ScreenElement> = Vec::new();
        assert(views(v@) =~= Seq::<ElementView>::empty());
        if h > 100 {
            let e = det2(
                "text",
                40,
                10,
                w - 80,
                25,
                90,
                Some(String::from_str("Application Window - Luna Visual AI")),
                "type",
                String::from_str("window_title"),
                "font_size",
                String::from_str("14"),
            );
            push_view(&mut v, e);
        }
        assert(views(v@) =~= when(
            hi > 100,
            seq![
                det(
                    "text"@,
                    40,
                    10,
                    wi - 80,
                    25,
                    90,
                    Some("Application Window - Luna Visual AI"@),
                    seq![("type"@, "window_title"@), ("font_size"@, "14"@)],
                ),
            ],
        ));
        proof {
            reveal_strlit("Save");
            reveal_strlit("Cancel");
            reveal_strlit("OK");
            reveal_strlit("Apply");
            reveal_strlit("Close");
            reveal_strlit("Username:");
            reveal_strlit("Password:");
            reveal_strlit("Email:");
        }
        push_ocr_button(&mut v, "Save", w / 2 - 30, h / 2 - 100, w, h);
        push_ocr_button(&mut v, "Cancel", w / 2 + 40, h / 2 - 100, w, h);
        push_ocr_button(&mut v, "OK", w / 2 - 15, h / 2 - 50, w, h);
        push_ocr_button(&mut v, "Apply", w / 2 - 25, h / 2, w, h);
        push_ocr_button(&mut v, "Close", w - 60, 15, w, h);
        push_ocr_menu(&mut v, 0, "File", w);
        push_ocr_menu(&mut v, 1, "Edit", w);
        push_ocr_menu(&mut v, 2, "View", w);
        push_ocr_menu(&mut v, 3, "Tools", w);
        push_ocr_menu(&mut v, 4, "Help", w);
        let ghost a = views(v@);
        if w > 300 && h > 300 {
            push_ocr_label(&mut v, "Username:", w / 4, h / 3 - 25, h);
            push_ocr_label(&mut v, "Password:", w / 4, h / 3 + 35, h);
            push_ocr_label(&mut v, "Email:", w / 4, h / 3 + 95, h);
        }
        assert(views(v@) =~= a + when(
            wi > 300 && hi > 300,
            ocr_label("Username:"@, wi / 4, hi / 3 - 25, hi) + ocr_label("Password:"@, wi / 4, hi / 3 + 35, hi)
                + ocr_label("Email:"@, wi / 4, hi / 3 + 95, hi),
        ));
        let ghost b = views(v@);
        if h > 200 {
            let e = det1(
                "text",
                10,
                h - 25,
                w / 2,
                16,
                70,
                Some(String::from_str("Ready - Luna Visual AI is active")),
                "type",
                String::from_str("status_text"),
            );
            push_view(&mut v, e);
        }
        assert(views(v@) =~= b + when(
            hi > 200,
            seq![
                det(
                    "text"@,
                    10,
                    hi - 25,
                    wi / 2,
                    16,
                    70,
                    Some("Ready - Luna Visual AI is active"@),
                    seq![("type"@, "status_text"@)],
                ),
            ],
        ));
        let e = det2(
            "text",
            w / 2 - 100,
            h - 60,
            200,
            14,
            65,
            Some(String::from_str("Hover for more information")),
            "type",
            String::from_str("tooltip"),
            "font_size",
            String::from_str("12"),
        );
        push_view(&mut v, e);
        v
    }
}

/// The value of the first attribute named `key` among `attrs`.
pub open spec fn attr_value(attrs: Seq<(Seq<char>, Seq<char>)>, key: Seq<char>) -> Option<Seq<char>>
    decreases attrs.len(),
{
    if attrs.len() == 0 {
        None
    } else if attrs[0].0 == key {
        Some(attrs[0].1)
    } else {
        attr_value(attrs.drop_first(), key)
    }
}

/// The group a read text belongs to by its `type` attribute: window titles
/// 0, button captions 1, menu captions 2, form labels 3, anything else 4.
pub open spec fn text_group(v: ElementView) -> int {
    match attr_value(v.4, "type"@) {
        Some(t) => if t == "window_title"@ {
            0
        } else if t == "button_text"@ {
            1
        } else if t == "menu_text"@ {
            2
        } else if t == "label"@ {
            3
        } else {
            4
        },
        None => 4,
    }
}

/// The texts of the elements `vs` in group `g`, in order; elements without
/// text are skipped.
pub open spec fn group_texts(vs: Seq<ElementView>, g: int) -> Seq<Seq<char>>
    decreases vs.len(),
{
    if vs.len() == 0 {
        Seq::empty()
    } else {
        let v = vs.last();
        group_texts(vs.drop_last(), g) + match v.3 {
            Some(t) => if text_group(v) == g {
                seq![t]
            } else {
                Seq::empty()
            },
            None => Seq::empty(),
        }
    }
}

/// The line `head` followed by the texts joined with `sep`, or no line
/// when there are no texts.
pub open spec fn summary_line(head: Seq<char>, texts: Seq<Seq<char>>, sep: Seq<char>) -> Seq<Seq<char>> {
    if texts.len() == 0 {
        Seq::empty()
    } else {
        seq![head + joined(texts, sep)]
    }
}

/// All text read, one line per group: `WINDOW:` titles joined by spaces,
/// `MENU:` captions joined by ` | `, `BUTTONS:` captions joined by `, `,
/// `FORM:` labels and `OTHER:` texts joined by spaces; groups without text
/// give no line.
pub open spec fn text_summary(vs: Seq<ElementView>) -> Seq<char> {
    joined(
        summary_line("WINDOW: "@, group_texts(vs, 0), " "@) + summary_line("MENU: "@, group_texts(vs, 2), " | "@)
            + summary_line("BUTTONS: "@, group_texts(vs, 1), ", "@) + summary_line("FORM: "@, group_texts(vs, 3), " "@)
            + summary_line("OTHER: "@, group_texts(vs, 4), " "@),
        "\n"@,
    )
}

/// Appends `items` joined with `sep`.
fn append_joined(s: &mut String, items: &Vec<String>, sep: &str)
    ensures
        final(s)@ == old(s)@ + joined(key_texts(items@), sep@),
{
    let ghost start = s@;
    let ghost ks = key_texts(items@);
    let mut i: usize = 0;
    while i < items.len()
        invariant
            i <= items@.len(),
            ks == key_texts(items@),
            s@ == start + joined(ks.take(i as int), sep@),
        decreases items@.len() - i,
    {
        assert(ks.take(i + 1).drop_last() =~= ks.take(i as int));
        assert(ks.take(i + 1).last() == items@[i as int]@);
        if i > 0 {
            s.append(sep);
        }
        s.append(items[i].as_str());
        proof {
            if i == 0 {
                assert(ks.take(1) =~= seq![items@[0]@]);
                assert(s@ =~= start + joined(ks.take(1), sep@));
            } else {
                assert(s@ =~= start + joined(ks.take(i + 1), sep@));
            }
        }
        i = i + 1;
    }
    assert(ks.take(items@.len() as int) =~= ks);
}

/// The value of the attribute `key` of `e`, if it has one.
fn attribute_of<'a>(e: &'a ScreenElement, key: &str) -> (r: Option<&'a String>)
    ensures
        match r {
            Some(v) => attr_value(crate::ai::attributes_view(*e), key@) == Some(v@),
            None => attr_value(crate::ai::attributes_view(*e), key@) is None,
        },
{
    let ghost all = crate::ai::attributes_view(*e);
    assert(all.skip(0) =~= all);
    let mut i: usize = 0;
    while i < e.attributes.len()
        invariant
            i <= e.attributes@.len(),
            all == crate::ai::attributes_view(*e),
            attr_value(all, key@) == attr_value(all.skip(i as int), key@),
        decreases e.attributes@.len() - i,
    {
        assert(all.skip(i as int)[0] == (e.attributes@[i as int].0@, e.attributes@[i as int].1@));
        assert(all.skip(i as int).drop_first() =~= all.skip(i + 1));
        if str_eq(e.attributes[i].0.as_str(), key) {
            return Some(&e.attributes[i].1);
        }
        i = i + 1;
    }
    assert(all.skip(i as int) =~= Seq::<(Seq<char>, Seq<char>)>::empty());
    None
}

/// The group of `e` as `text_group` gives it.
fn group_of(e: &ScreenElement) -> (g: u8)
    ensures
        g == text_group(element_view(*e)),
{
    match attribute_of(e, "type") {
        Some(t) => {
            let t = t.as_str();
            if str_eq(t, "window_title") {
                0
            } else if str_eq(t, "button_text") {
                1
            } else if str_eq(t, "menu_text") {
                2
            } else if str_eq(t, "label") {
                3
            } else {
                4
            }
        },
        None => 4,
    }
}

/// Appends the line for `texts` under `head` (see `summary_line`), after a
/// line break when `s` already holds a line; `wrote` tells whether it does.
fn append_line(s: &mut String, wrote: bool, head: &str, texts: &Vec<String>, sep: &str) -> (now: bool)
    ensures
        now == (wrote || texts@.len() > 0),
        final(s)@ == if texts@.len() == 0 {
            old(s)@
        } else if wrote {
            old(s)@ + "\n"@ + head@ + joined(key_texts(texts@), sep@)
        } else {
            old(s)@ + head@ + joined(key_texts(texts@), sep@)
        },
{
    if texts.len() == 0 {
        return wrote;
    }
    if wrote {
        s.append("\n");
    }
    s.append(head);
    append_joined(s, texts, sep);
    true
}

/// The texts of `elements` by group (see `group_texts`).
fn group_all(elements: &Vec<ScreenElement>) -> (groups: Vec<Vec<String>>)
    ensures
        groups@.len() == 5,
        forall|g: int| 0 <= g < 5 ==> key_texts(#[trigger] groups@[g]@) == group_texts(views(elements@), g),
{
    let mut groups: Vec<Vec<String>> = Vec::new();
    groups.push(Vec::new());
    groups.push(Vec::new());
    groups.push(Vec::new());
    groups.push(Vec::new());
    groups.push(Vec::new());
    proof {
        assert forall|g: int| 0 <= g < 5 implies key_texts(#[trigger] groups@[g]@) == group_texts(views(elements@.take(0)), g) by {
            assert(key_texts(groups@[g]@) =~= Seq::<Seq<char>>::empty());
            assert(views(elements@.take(0)) =~= Seq::<ElementView>::empty());
        }
    }
    let mut i: usize = 0;
    while i < elements.len()
        invariant
            i <= elements@.len(),
            groups@.len() == 5,
            forall|g: int| 0 <= g < 5 ==> key_texts(#[trigger] groups@[g]@) == group_texts(views(elements@.take(i as int)), g),
        decreases elements@.len() - i,
    {
        let ghost vs = views(elements@.take(i + 1));
        assert(vs.drop_last() =~= views(elements@.take(i as int)));
        assert(vs.last() == element_view(elements@[i as int]));
        let ghost before = groups@;
        match &elements[i].text {
            Some(t) => {
                let g = group_of(&elements[i]) as usize;
                let mut list = groups.remove(g);
                list.push(t.clone());
                groups.insert(g, list);
                assert forall|q: int| 0 <= q < 5 implies key_texts(#[trigger] groups@[q]@) == group_texts(vs, q) by {
                    if q == g as int {
                        assert(key_texts(groups@[q]@) =~= key_texts(before[q]@).push(t@));
                    } else {
                        assert(groups@[q] == before[q]);
                        assert(group_texts(vs, q) =~= group_texts(vs.drop_last(), q));
                    }
                }
            },
            None => {
                assert forall|q: int| 0 <= q < 5 implies key_texts(#[trigger] groups@[q]@) == group_texts(vs, q) by {
                    assert(group_texts(vs, q) =~= group_texts(vs.drop_last(), q));
                }
            },
        }
        i = i + 1;
    }
    assert(elements@.take(elements@.len() as int) =~= elements@);
    groups
}

/// All text read from `elements`, grouped: `text_summary`.
pub fn summarize_text(elements: &Vec<ScreenElement>) -> (s: String)
    ensures
        s@ == text_summary(views(elements@)),
{
    let groups = group_all(elements);
    let ghost vs = views(elements@);
    assert(key_texts(groups@[0]@) == group_texts(vs, 0));
    assert(key_texts(groups@[1]@) == group_texts(vs, 1));
    assert(key_texts(groups@[2]@) == group_texts(vs, 2));
    assert(key_texts(groups@[3]@) == group_texts(vs, 3));
    assert(key_texts(groups@[4]@) == group_texts(vs, 4));
    let mut s = String::new();
    let ghost p0 = Seq::<Seq<char>>::empty();
    assert(s@ =~= joined(p0, "\n"@));
    let w0 = add_line(&mut s, false, "WINDOW: ", &groups[0], " ", Ghost(p0));
    let ghost p1 = p0 + summary_line("WINDOW: "@, group_texts(vs, 0), " "@);
    let w1 = add_line(&mut s, w0, "MENU: ", &groups[2], " | ", Ghost(p1));
    let ghost p2 = p1 + summary_line("MENU: "@, group_texts(vs, 2), " | "@);
    let w2 = add_line(&mut s, w1, "BUTTONS: ", &groups[1], ", ", Ghost(p2));
    let ghost p3 = p2 + summary_line("BUTTONS: "@, group_texts(vs, 1), ", "@);
    let w3 = add_line(&mut s, w2, "FORM: ", &groups[3], " ", Ghost(p3));
    let ghost p4 = p3 + summary_line("FORM: "@, group_texts(vs, 3), " "@);
    let _w4 = add_line(&mut s, w3, "OTHER: ", &groups[4], " ", Ghost(p4));
    assert(p0 + summary_line("WINDOW: "@, group_texts(vs, 0), " "@) =~= summary_line("WINDOW: "@, group_texts(vs, 0), " "@));
    s
}

/// Appends the summary line of `texts` to the lines `p` already written.
fn add_line(s: &mut String, wrote: bool, head: &str, texts: &Vec<String>, sep: &str, Ghost(p): Ghost<Seq<Seq<char>>>) -> (now: bool)
    requires
        old(s)@ == joined(p, "\n"@),
        wrote == (p.len() > 0),
    ensures
        final(s)@ == joined(p + summary_line(head@, key_texts(texts@), sep@), "\n"@),
        now == ((p + summary_line(head@, key_texts(texts@), sep@)).len() > 0),
{
    let now = append_line(s, wrote, head, texts, sep);
    proof {
        lemma_summary_step(p, head@, key_texts(texts@), sep@);
    }
    now
}

/// Adding a summary line to the lines `p` joined by line breaks.
proof fn lemma_summary_step(p: Seq<Seq<char>>, head: Seq<char>, texts: Seq<Seq<char>>, sep: Seq<char>)
    ensures
        (p + summary_line(head, texts, sep)).len() > 0 <==> (p.len() > 0 || texts.len() > 0),
        joined(p + summary_line(head, texts, sep), "\n"@) == if texts.len() == 0 {
            joined(p, "\n"@)
        } else if p.len() > 0 {
            joined(p, "\n"@) + "\n"@ + (head + joined(texts, sep))
        } else {
            head + joined(texts, sep)
        },
{
    if texts.len() == 0 {
        assert(p + summary_line(head, texts, sep) =~= p);
    } else {
        let x = head + joined(texts, sep);
        assert(p + summary_line(head, texts, sep) =~= p.push(x));
        assert(p.push(x).drop_last() =~= p);
    }
}

/// The texts of the elements `vs` that have one, in order.
pub open spec fn all_texts(vs: Seq<ElementView>) -> Seq<Seq<char>>
    decreases vs.len(),
{
    if vs.len() == 0 {
        Seq::empty()
    } else {
        all_texts(vs.drop_last()) + match vs.last().3 {
            Some(t) => seq![t],
            None => Seq::empty(),
        }
    }
}

/// The texts of `elements` that have one.
fn texts_of(elements: &Vec<ScreenElement>) -> (v: Vec<String>)
    ensures
        key_texts(v@) == all_texts(views(elements@)),
{
    let mut v: Vec<String> = Vec::new();
    let mut i: usize = 0;
    while i < elements.len()
        invariant
            i <= elements@.len(),
            key_texts(v@) == all_texts(views(elements@.take(i as int))),
        decreases elements@.len() - i,
    {
        let ghost vs = views(elements@.take(i + 1));
        assert(vs.drop_last() =~= views(elements@.take(i as int)));
        assert(vs.last() == element_view(elements@[i as int]));
        let ghost before = key_texts(v@);
        match &elements[i].text {
            Some(t) => {
                v.push(t.clone());
                assert(key_texts(v@) =~= before.push(t@));
            },
            None => {},
        }
        assert(key_texts(v@) =~= all_texts(vs));
        i = i + 1;
    }
    assert(elements@.take(elements@.len() as int) =~= elements@);
    v
}

/// What the segmentation model reads on a `w` x `h` screen: the count of
/// texts, then each on a line of its own.
pub open spec fn segmented_text(w: int, h: int) -> Seq<char> {
    let texts = all_texts(segmentation(w, h));
    "SAM Segmented Text ("@ + decimal(texts.len()) + " regions):\n"@ + joined(texts, "\n"@)
}

impl SAMModel {
    /// The elements of a `width` x `height` screen, when the model is
    /// loaded.
    pub fn analyze_screen(&self, width: u32, height: u32) -> (r: Result<Vec<ScreenElement>, String>)
        requires
            width <= i32::MAX,
            height <= i32::MAX,
        ensures
            self.is_ready() ==> (r matches Ok(v) && views(v@) == segmentation(width as int, height as int)),
            !self.is_ready() ==> (r matches Err(m) && m@ == "SAM model not loaded"@),
    {
        if !self.loaded {
            return Err(String::from_str("SAM model not loaded"));
        }
        Ok(self.segment_ui_elements(width, height))
    }

    /// The texts of a `width` x `height` screen, when the model is loaded:
    /// `segmented_text(width, height)`.
    pub fn detect_text(&self, width: u32, height: u32) -> (r: Result<String, String>)
        requires
            width <= i32::MAX,
            height <= i32::MAX,
        ensures
            self.is_ready() ==> (r matches Ok(s) && s@ == segmented_text(width as int, height as int)),
            !self.is_ready() ==> (r matches Err(m) && m@ == "SAM model not loaded"@),
    {
        if !self.loaded {
            return Err(String::from_str("SAM model not loaded"));
        }
        let elements = self.segment_ui_elements(width, height);
        let texts = texts_of(&elements);
        let mut s = String::from_str("SAM Segmented Text (");
        append_decimal(&mut s, texts.len() as u64);
        s.append(" regions):\n");
        append_joined(&mut s, &texts, "\n");
        proof {
            assert(key_texts(texts@).len() == texts@.len());
        }
        Ok(s)
    }

    /// Where to click on `element`: its center, halves rounded toward zero.
    pub fn get_optimal_click_point(&self, element: &ScreenElement) -> (p: (i32, i32))
        requires
            crate::ai::center_fits(element.bounds),
        ensures
            (p.0 as int, p.1 as int) == crate::ai::center(element.bounds),
    {
        let b = element.bounds;
        ((b.x as i64 + (b.width / 2) as i64) as i32, (b.y as i64 + (b.height / 2) as i64) as i32)
    }
}

impl TrOCRModel {
    /// All text read on a `width` x `height` screen, grouped:
    /// `text_summary(text_regions(width, height))`.
    pub fn extract_all_text(&self, width: u32, height: u32) -> (s: String)
        requires
            width <= i32::MAX,
            height <= i32::MAX,
        ensures
            s@ == text_summary(text_regions(width as int, height as int)),
    {
        let regions = self.detect_text_regions(width, height);
        summarize_text(&regions)
    }

    /// The text regions of a `width` x `height` screen, when the model is
    /// loaded.
    pub fn analyze_screen(&self, width: u32, height: u32) -> (r: Result<Vec<ScreenElement>, String>)
        requires
            width <= i32::MAX,
            height <= i32::MAX,
        ensures
            self.is_ready() ==> (r matches Ok(v) && views(v@) == text_regions(width as int, height as int)),
            !self.is_ready() ==> (r matches Err(m) && m@ == "TrOCR model not loaded"@),
    {
        if !self.loaded {
            return Err(String::from_str("TrOCR model not loaded"));
        }
        Ok(self.detect_text_regions(width, height))
    }

    /// All text of a `width` x `height` screen, when the model is loaded.
    pub fn detect_text(&self, width: u32, height: u32) -> (r: Result<String, String>)
        requires
            width <= i32::MAX,
            height <= i32::MAX,
        ensures
            self.is_ready() ==> (r matches Ok(s) && s@ == text_summary(text_regions(width as int, height as int))),
            !self.is_ready() ==> (r matches Err(m) && m@ == "TrOCR model not loaded"@),
    {
        if !self.loaded {
            return Err(String::from_str("TrOCR model not loaded"));
        }
        Ok(self.extract_all_text(width, height))
    }
}

/// A mask over an element: one byte per pixel of its rectangle, row by
/// row, 255 inside the shape, 0 outside, 128 on an input field's border.
#[derive(Debug)]
pub struct SegmentationMask {
    pub bounds: ElementBounds,
    pub mask_data: Vec<u8>,
    /// How sure the detector is, in percent.
    pub confidence: u32,
}

/// The byte at `(x, y)` of a `w` x `h` rectangle with corners rounded to
/// radius `r`: 0 in a corner square beyond the radius, else 255.
pub open spec fn rounded_value(x: int, y: int, w: int, h: int, r: int) -> u8 {
    let in_corner = (x < r && y < r) || (x >= w - r && y < r) || (x < r && y >= h - r) || (x >= w - r && y >= h - r);
    if in_corner {
        let cx = if x < r { r - x } else { x - (w - r) };
        let cy = if y < r { r - y } else { y - (h - r) };
        if cx * cx + cy * cy <= r * r { 255 } else { 0 }
    } else {
        255
    }
}

/// The byte at `(x, y)` of a `w` x `h` field with a border `b` wide: 128
/// on the border, 255 inside.
pub open spec fn bordered_value(x: int, y: int, w: int, h: int, b: int) -> u8 {
    if x < b || x >= w - b || y < b || y >= h - b { 128 } else { 255 }
}

/// The byte at `(x, y)` of a `w` x `h` icon: 255 within the circle about
/// the center whose radius is half the shorter side, else 0.
pub open spec fn icon_value(x: int, y: int, w: int, h: int) -> u8 {
    let r = (if w < h { w } else { h }) / 2;
    let dx = x - w / 2;
    let dy = y - h / 2;
    if dx * dx + dy * dy <= r * r { 255 } else { 0 }
}

/// The mask byte at `(x, y)` of an element of kind `kind` that is `w` x
/// `h`: rounded corners of radius 5 for buttons, a border 2 wide for
/// inputs, a circle for icons, solid otherwise.
pub open spec fn mask_value(kind: Seq<char>, x: int, y: int, w: int, h: int) -> u8 {
    if kind == "button"@ {
        rounded_value(x, y, w, h, 5)
    } else if kind == "input"@ {
        bordered_value(x, y, w, h, 2)
    } else if kind == "icon"@ {
        icon_value(x, y, w, h)
    } else {
        255
    }
}

/// The rectangle of an element is small enough to hold a mask.
pub open spec fn maskable(b: ElementBounds) -> bool {
    &&& 0 <= b.width
    &&& 0 <= b.height
    &&& b.width * b.height <= i32::MAX
}

/// `mask` is the mask of an element of kind `kind` over `b`.
pub open spec fn is_mask_of(mask: Seq<u8>, kind: Seq<char>, b: ElementBounds) -> bool {
    &&& mask.len() == b.width * b.height
    &&& forall|x: int, y: int|
        0 <= x < b.width && 0 <= y < b.height ==> #[trigger] mask[y * b.width + x] == mask_value(kind, x, y, b.width as int, b.height as int)
}

fn mask_byte(kind: u8, x: i32, y: i32, w: i32, h: i32) -> (v: u8)
    requires
        0 <= x < w,
        0 <= y < h,
    ensures
        kind == 0 ==> v == rounded_value(x as int, y as int, w as int, h as int, 5),
        kind == 1 ==> v == bordered_value(x as int, y as int, w as int, h as int, 2),
        kind == 2 ==> v == icon_value(x as int, y as int, w as int, h as int),
        kind > 2 ==> v == 255,
{
    let (x, y, w, h) = (x as i128, y as i128, w as i128, h as i128);
    if kind == 0 {
        let r: i128 = 5;
        let in_corner = (x < r && y < r) || (x >= w - r && y < r) || (x < r && y >= h - r) || (x >= w - r && y >= h - r);
        if in_corner {
            let cx = if x < r { r - x } else { x - (w - r) };
            let cy = if y < r { r - y } else { y - (h - r) };
            assert(cx * cx <= 0x1_0000_0000_0000_0000 && cy * cy <= 0x1_0000_0000_0000_0000) by (nonlinear_arith)
                requires
                    -0x1_0000_0000 <= cx <= 0x1_0000_0000,
                    -0x1_0000_0000 <= cy <= 0x1_0000_0000,
            ;
            if cx * cx + cy * cy <= r * r { 255 } else { 0 }
        } else {
            255
        }
    } else if kind == 1 {
        if x < 2 || x >= w - 2 || y < 2 || y >= h - 2 { 128 } else { 255 }
    } else if kind == 2 {
        let r = (if w < h { w } else { h }) / 2;
        let dx = x - w / 2;
        let dy = y - h / 2;
        assert(-0x1_0000_0000 <= dx <= 0x1_0000_0000);
        assert(-0x1_0000_0000 <= dy <= 0x1_0000_0000);
        assert(0 <= r <= 0x1_0000_0000);
        assert(dx * dx <= 0x1_0000_0000_0000_0000) by (nonlinear_arith)
            requires
                -0x1_0000_0000 <= dx <= 0x1_0000_0000,
        ;
        assert(dy * dy <= 0x1_0000_0000_0000_0000) by (nonlinear_arith)
            requires
                -0x1_0000_0000 <= dy <= 0x1_0000_0000,
        ;
        assert(r * r <= 0x1_0000_0000_0000_0000) by (nonlinear_arith)
            requires
                0 <= r <= 0x1_0000_0000,
        ;
        assert(dx * dx >= 0 && dy * dy >= 0) by (nonlinear_arith);
        let d = dx * dx + dy * dy;
        if d <= r * r { 255 } else { 0 }
    } else {
        255
    }
}

/// The shape code of a kind: buttons 0, inputs 1, icons 2, others 3.
pub open spec fn shape_code(kind: Seq<char>) -> u8 {
    if kind == "button"@ {
        0
    } else if kind == "input"@ {
        1
    } else if kind == "icon"@ {
        2
    } else {
        3
    }
}

proof fn lemma_index_order(w: int, y1: int, x1: int, y2: int, x2: int)
    requires
        0 <= x1 < w,
        0 <= x2,
        0 <= y1 < y2,
    ensures
        y1 * w + x1 < y2 * w + x2,
{
    assert(y1 * w + w <= y2 * w) by (nonlinear_arith)
        requires
            y1 < y2,
            w > 0,
    ;
}

/// The mask of an element of kind `kind` over `b`.
fn fill_mask(kind: &str, b: ElementBounds) -> (mask: Vec<u8>)
    requires
        maskable(b),
    ensures
        is_mask_of(mask@, kind@, b),
{
    let code: u8 = if str_eq(kind, "button") {
        0
    } else if str_eq(kind, "input") {
        1
    } else if str_eq(kind, "icon") {
        2
    } else {
        3
    };
    assert(code == shape_code(kind@));
    let w = b.width;
    let h = b.height;
    let mut mask: Vec<u8> = Vec::new();
    let mut y: i32 = 0;
    while y < h
        invariant
            0 <= y <= h,
            w == b.width,
            h == b.height,
            maskable(b),
            code == shape_code(kind@),
            mask@.len() == y * w,
            forall|px: int, py: int|
                0 <= px < w && 0 <= py < y ==> #[trigger] mask@[py * w + px] == mask_value(kind@, px, py, w as int, h as int),
        decreases h - y,
    {
        assert(y * w + w <= w * h) by (nonlinear_arith)
            requires
                0 <= y < h,
                0 <= w,
        ;
        let mut x: i32 = 0;
        while x < w
            invariant
                0 <= x <= w,
                0 <= y < h,
                w == b.width,
                h == b.height,
                maskable(b),
                code == shape_code(kind@),
                y * w + w <= w * h,
                mask@.len() == y * w + x,
                forall|px: int, py: int|
                    0 <= px < w && 0 <= py < y ==> #[trigger] mask@[py * w + px] == mask_value(kind@, px, py, w as int, h as int),
                forall|px: int| 0 <= px < x ==> #[trigger] mask@[y * w + px] == mask_value(kind@, px, y as int, w as int, h as int),
            decreases w - x,
        {
            let v = mask_byte(code, x, y, w, h);
            let ghost before = mask@;
            mask.push(v);
            assert forall|px: int, py: int|
                0 <= px < w && 0 <= py < y implies #[trigger] mask@[py * w + px] == mask_value(kind@, px, py, w as int, h as int) by {
                lemma_index_order(w as int, py, px, y as int, x as int);
                assert(mask@[py * w + px] == before[py * w + px]);
            }
            assert forall|px: int| 0 <= px < x + 1 implies #[trigger] mask@[y * w + px] == mask_value(kind@, px, y as int, w as int, h as int) by {
                if px < x {
                    assert(mask@[y * w + px] == before[y * w + px]);
                }
            }
            x = x + 1;
        }
        assert forall|px: int, py: int|
            0 <= px < w && 0 <= py < y + 1 implies #[trigger] mask@[py * w + px] == mask_value(kind@, px, py, w as int, h as int) by {
            if py == y {
                assert(mask@[y * w + px] == mask_value(kind@, px, y as int, w as int, h as int));
            }
        }
        assert((y + 1) * w == y * w + w) by (nonlinear_arith);
        y = y + 1;
    }
    assert(h * w == w * h) by (nonlinear_arith);
    mask
}

/// The masks of `elements`, in order, each with the element's rectangle
/// and confidence.
pub fn generate_segmentation_masks(elements: &Vec<ScreenElement>) -> (masks: Vec<SegmentationMask>)
    requires
        forall|i: int| 0 <= i < elements@.len() ==> maskable(#[trigger] elements@[i].bounds),
    ensures
        masks@.len() == elements@.len(),
        forall|i: int|
            0 <= i < elements@.len() ==> {
                &&& (#[trigger] masks@[i]).bounds == elements@[i].bounds
                &&& masks@[i].confidence == elements@[i].confidence
                &&& is_mask_of(masks@[i].mask_data@, elements@[i].element_type@, elements@[i].bounds)
            },
{
    let mut masks: Vec<SegmentationMask> = Vec::new();
    let mut i: usize = 0;
    while i < elements.len()
        invariant
            i <= elements@.len(),
            forall|q: int| 0 <= q < elements@.len() ==> maskable(#[trigger] elements@[q].bounds),
            masks@.len() == i,
            forall|q: int|
                0 <= q < i ==> {
                    &&& (#[trigger] masks@[q]).bounds == elements@[q].bounds
                    &&& masks@[q].confidence == elements@[q].confidence
                    &&& is_mask_of(masks@[q].mask_data@, elements@[q].element_type@, elements@[q].bounds)
                },
        decreases elements@.len() - i,
    {
        let e = &elements[i];
        let mask_data = fill_mask(e.element_type.as_str(), e.bounds);
        masks.push(SegmentationMask { bounds: e.bounds, mask_data, confidence: e.confidence });
        i = i + 1;
    }
    masks
}

impl SAMModel {
    /// The masks of the elements found on a `width` x `height` screen,
    /// when the model is loaded.
    pub fn get_segmentation_masks(&self, width: u32, height: u32) -> (r: Result<Vec<SegmentationMask>, String>)
        requires
            width <= i32::MAX,
            height <= i32::MAX,
            forall|i: int|
                0 <= i < segmentation(width as int, height as int).len() ==> maskable(
                    (#[trigger] segmentation(width as int, height as int)[i]).1,
                ),
        ensures
            !self.is_ready() ==> (r matches Err(m) && m@ == "SAM model not loaded"@),
            self.is_ready() ==> (r matches Ok(masks) && masks@.len() == segmentation(width as int, height as int).len()
                && forall|i: int|
                0 <= i < masks@.len() ==> {
                    let d = #[trigger] segmentation(width as int, height as int)[i];
                    &&& masks@[i].bounds == d.1
                    &&& masks@[i].confidence == d.2
                    &&& is_mask_of(masks@[i].mask_data@, d.0, d.1)
                }),
    {
        if !self.loaded {
            return Err(String::from_str("SAM model not loaded"));
        }
        let elements = self.segment_ui_elements(width, height);
        proof {
            assert forall|i: int| 0 <= i < elements@.len() implies maskable(#[trigger] elements@[i].bounds) by {
                assert(views(elements@)[i] == element_view(elements@[i]));
            }
        }
        let masks = generate_segmentation_masks(&elements);
        proof {
            assert forall|i: int| 0 <= i < masks@.len() implies {
                let d = #[trigger] segmentation(width as int, height as int)[i];
                &&& masks@[i].bounds == d.1
                &&& masks@[i].confidence == d.2
                &&& is_mask_of(masks@[i].mask_data@, d.0, d.1)
            } by {
                assert(views(elements@)[i] == element_view(elements@[i]));
            }
        }
        Ok(masks)
    }
}

} // verus!
