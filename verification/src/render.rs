//! Drawing on RGBA canvases: alpha blending, filled and outlined boxes,
//! lines along the axes, and text from a small bitmap font.

use vstd::prelude::*;
use vstd::string::StringExecFns;
use crate::image::Image;

verus! {

/// An RGBA colour.
#[derive(Debug, Clone, Copy, PartialEq, Eq, Structural)]
pub struct Color {
    pub r: u8,
    pub g: u8,
    pub b: u8,
    pub a: u8,
}

impl Color {
    /// An opaque colour.
    pub fn rgb(r: u8, g: u8, b: u8) -> (c: Self)
        ensures
            c == (Color { r, g, b, a: 255 }),
    {
        Color { r, g, b, a: 255 }
    }

    /// A colour with the given opacity.
    pub fn rgba(r: u8, g: u8, b: u8, a: u8) -> (c: Self)
        ensures
            c == (Color { r, g, b, a }),
    {
        Color { r, g, b, a }
    }

    /// Fully transparent black.
    pub fn transparent() -> (c: Self)
        ensures
            c == (Color { r: 0, g: 0, b: 0, a: 0 }),
    {
        Color { r: 0, g: 0, b: 0, a: 0 }
    }

    /// The same colour with opacity `alpha`.
    pub fn with_alpha(&self, alpha: u8) -> (c: Self)
        ensures
            c == (Color { r: self.r, g: self.g, b: self.b, a: alpha }),
    {
        Color { r: self.r, g: self.g, b: self.b, a: alpha }
    }

    /// The colour as the four bytes of an RGBA pixel.
    pub open spec fn bytes(self) -> Seq<u8> {
        seq![self.r, self.g, self.b, self.a]
    }
}

/// `n` drawn over `e` with `n`'s opacity: each colour channel is
/// `(n * a + e * (255 - a)) / 255`, the opacity `a + e_a * (255 - a) / 255`.
pub open spec fn blend(e: Seq<u8>, n: Seq<u8>) -> Seq<u8> {
    let a = n[3] as int;
    seq![
        ((n[0] * a + e[0] * (255 - a)) / 255) as u8,
        ((n[1] * a + e[1] * (255 - a)) / 255) as u8,
        ((n[2] * a + e[2] * (255 - a)) / 255) as u8,
        (a + e[3] * (255 - a) / 255) as u8,
    ]
}

/// `n` drawn `k` times over `e`.
pub open spec fn blend_times(e: Seq<u8>, n: Seq<u8>, k: nat) -> Seq<u8>
    decreases k,
{
    if k == 0 {
        e
    } else {
        blend(blend_times(e, n, (k - 1) as nat), n)
    }
}

/// Drawing `k1` then `k2` times is drawing `k1 + k2` times.
pub proof fn lemma_blend_times_add(e: Seq<u8>, n: Seq<u8>, k1: nat, k2: nat)
    ensures
        blend_times(blend_times(e, n, k1), n, k2) == blend_times(e, n, k1 + k2),
    decreases k2,
{
    if k2 > 0 {
        lemma_blend_times_add(e, n, k1, (k2 - 1) as nat);
    }
}

/// `after` is `before` with the pixel bytes `n` drawn `hits(x, y)` times
/// over each pixel `(x, y)`; canvases without four channels are left as
/// they are.
pub open spec fn painted(before: Image, after: Image, n: Seq<u8>, hits: spec_fn(int, int) -> nat) -> bool {
    &&& after.wf()
    &&& after.width == before.width
    &&& after.height == before.height
    &&& after.channels == before.channels
    &&& before.channels == 4 ==> forall|x: int, y: int|
        #![trigger after.pixel(x, y)]
        before.in_bounds(x, y) ==> after.pixel(x, y) == blend_times(before.pixel(x, y), n, hits(x, y))
    &&& before.channels != 4 ==> after.data@ == before.data@
}

/// Painting twice is painting with the hits added.
pub proof fn lemma_painted_compose(
    a: Image,
    b: Image,
    c: Image,
    n: Seq<u8>,
    h1: spec_fn(int, int) -> nat,
    h2: spec_fn(int, int) -> nat,
)
    requires
        painted(a, b, n, h1),
        painted(b, c, n, h2),
    ensures
        painted(a, c, n, |x: int, y: int| h1(x, y) + h2(x, y)),
{
    if a.channels == 4 {
        assert forall|x: int, y: int| a.in_bounds(x, y) implies c.pixel(x, y) == blend_times(
            a.pixel(x, y),
            n,
            h1(x, y) + h2(x, y),
        ) by {
            assert(b.pixel(x, y) == blend_times(a.pixel(x, y), n, h1(x, y)));
            lemma_blend_times_add(a.pixel(x, y), n, h1(x, y), h2(x, y));
        }
    }
}

/// Painting nothing.
pub proof fn lemma_painted_none(a: Image, n: Seq<u8>)
    requires
        a.wf(),
    ensures
        painted(a, a, n, |x: int, y: int| 0nat),
{
}

/// Painting where the hits agree is the same painting.
pub proof fn lemma_painted_same_hits(
    a: Image,
    b: Image,
    n: Seq<u8>,
    h1: spec_fn(int, int) -> nat,
    h2: spec_fn(int, int) -> nat,
)
    requires
        painted(a, b, n, h1),
        forall|x: int, y: int| a.in_bounds(x, y) ==> #[trigger] h1(x, y) == h2(x, y),
    ensures
        painted(a, b, n, h2),
{
    if a.channels == 4 {
        assert forall|x: int, y: int| a.in_bounds(x, y) implies b.pixel(x, y) == blend_times(
            a.pixel(x, y),
            n,
            h2(x, y),
        ) by {
            assert(h1(x, y) == h2(x, y));
        }
    }
}

/// One when `(x, y)` lies in the box `[x0, x1) x [y0, y1)`, else zero.
pub open spec fn in_box(x: int, y: int, x0: int, x1: int, y0: int, y1: int) -> nat {
    if x0 <= x < x1 && y0 <= y < y1 {
        1
    } else {
        0
    }
}

/// `v` clamped to `[0, limit]`.
pub open spec fn clamp(v: int, limit: int) -> int {
    if v <= 0 {
        0
    } else if v >= limit {
        limit
    } else {
        v
    }
}

fn clamp_to(v: i64, limit: usize) -> (r: usize)
    ensures
        r == clamp(v as int, limit as int),
{
    if v <= 0 {
        0
    } else if (v as u64) >= (limit as u64) {
        limit
    } else {
        v as usize
    }
}

/// A rectangle of pixels.
#[derive(Debug, Clone, Copy, PartialEq, Eq, Structural)]
pub struct PixelRect {
    pub x: i32,
    pub y: i32,
    pub width: i32,
    pub height: i32,
}

/// Why rendering failed.
#[derive(Debug)]
pub enum RenderError {
    InvalidDimensions,
    FontError(String),
    DrawingError(String),
}

impl RenderError {
    /// The text the error is shown with.
    pub open spec fn spec_message(&self) -> Seq<char> {
        match self {
            RenderError::InvalidDimensions => "Invalid canvas dimensions"@,
            RenderError::FontError(m) => "Font error: "@ + m@,
            RenderError::DrawingError(m) => "Drawing error: "@ + m@,
        }
    }

    /// The text the error is shown with.
    pub fn message(&self) -> (s: String)
        ensures
            s@ == self.spec_message(),
    {
        match self {
            RenderError::InvalidDimensions => String::from_str("Invalid canvas dimensions"),
            RenderError::FontError(m) => {
                let mut s = String::from_str("Font error: ");
                s.append(m.as_str());
                s
            },
            RenderError::DrawingError(m) => {
                let mut s = String::from_str("Drawing error: ");
                s.append(m.as_str());
                s
            },
        }
    }
}

/// The blend of one colour byte.
fn mix(n: u8, e: u8, a: u8) -> (r: u8)
    ensures
        r == ((n * a + e * (255 - a)) / 255) as u8,
{
    let b = 255 - a;
    assert((n as u32) * (a as u32) <= 65025 && (e as u32) * (b as u32) <= 65025) by (nonlinear_arith)
        requires
            n <= 255,
            e <= 255,
            a <= 255,
            b <= 255,
    ;
    let p1 = (n as u32) * (a as u32);
    let p2 = (e as u32) * (b as u32);
    assert(p1 + p2 <= 255 * 255 && p1 == n * a && p2 == e * (255 - a)) by (nonlinear_arith)
        requires
            p1 == (n as u32) * (a as u32),
            p2 == (e as u32) * (b as u32),
            b == 255 - a,
            n <= 255,
            e <= 255,
            a <= 255,
    ;
    ((p1 + p2) / 255) as u8
}

/// Draws the pixel bytes `new_pixel` over pixel `(x, y)` of an RGBA canvas;
/// out of bounds, or on a canvas without four channels, nothing changes.
pub fn blend_pixel(canvas: &mut Image, x: usize, y: usize, new_pixel: &[u8; 4])
    requires
        old(canvas).wf(),
    ensures
        painted(*old(canvas), *final(canvas), new_pixel@, |xx: int, yy: int| if xx == x && yy == y {
            1nat
        } else {
            0nat
        }),
{
    let ghost before = *canvas;
    if x >= canvas.width || y >= canvas.height || canvas.channels != 4 {
        return;
    }
    proof {
        crate::image::lemma_pixel_number(canvas.width as int, canvas.height as int, x as int, y as int);
        crate::image::lemma_pixel_offset_bounds(
            canvas.width as int,
            canvas.height as int,
            canvas.channels as int,
            y * canvas.width + x,
        );
    }
    let (e0, e1, e2, e3) = match canvas.get_pixel(x, y) {
        Some(p) => (p[0], p[1], p[2], p[3]),
        None => {
            return;
        },
    };
    let a = new_pixel[3];
    assert((e3 as u32) * (255 - a as u32) <= 65025) by (nonlinear_arith)
        requires
            e3 <= 255,
            a <= 255,
    ;
    let alpha_rest = ((e3 as u32) * (255 - a as u32)) / 255;
    assert(alpha_rest <= 255 - a) by (nonlinear_arith)
        requires
            alpha_rest == ((e3 as u32) * (255 - a as u32)) / 255,
            e3 <= 255,
            a <= 255,
    ;
    let blended: [u8; 4] = [
        mix(new_pixel[0], e0, a),
        mix(new_pixel[1], e1, a),
        mix(new_pixel[2], e2, a),
        (a as u32 + alpha_rest) as u8,
    ];
    assert(blended@ =~= blend(before.pixel(x as int, y as int), new_pixel@));
    assert(blend_times(before.pixel(x as int, y as int), new_pixel@, 0) == before.pixel(
        x as int,
        y as int,
    ));
    assert(blend_times(before.pixel(x as int, y as int), new_pixel@, 1) == blend(
        before.pixel(x as int, y as int),
        new_pixel@,
    ));
    canvas.set_pixel(x, y, &blended);
}

/// Draws `new_pixel` over every pixel of the box `[x0, x1) x [y0, y1)`,
/// which lies within the canvas.
pub fn fill_box(canvas: &mut Image, x0: usize, x1: usize, y0: usize, y1: usize, new_pixel: &[u8; 4])
    requires
        old(canvas).wf(),
        x1 <= old(canvas).width,
        y1 <= old(canvas).height,
    ensures
        painted(*old(canvas), *final(canvas), new_pixel@, |xx: int, yy: int| in_box(xx, yy, x0 as int, x1 as int, y0 as int, y1 as int)),
{
    let ghost start = *canvas;
    let mut y = y0;
    proof {
        lemma_painted_none(start, new_pixel@);
        lemma_painted_same_hits(start, start, new_pixel@, |xx: int, yy: int| 0nat, |xx: int, yy: int| in_box(xx, yy, x0 as int, x1 as int, y0 as int, y0 as int));
    }
    while y < y1
        invariant
            y0 <= y,
            y <= y1 || y == y0,
            y1 <= start.height,
            x1 <= start.width,
            start.wf(),
            painted(start, *canvas, new_pixel@, |xx: int, yy: int| in_box(xx, yy, x0 as int, x1 as int, y0 as int, y as int)),
        decreases y1 - y,
    {
        let ghost row_start = *canvas;
        let mut x = x0;
        proof {
            lemma_painted_none(row_start, new_pixel@);
            lemma_painted_same_hits(row_start, row_start, new_pixel@, |xx: int, yy: int| 0nat, |xx: int, yy: int| in_box(xx, yy, x0 as int, x0 as int, y as int, y + 1));
        }
        while x < x1
            invariant
                x0 <= x,
                x <= x1 || x == x0,
                y < y1 <= start.height,
                x1 <= start.width,
                row_start.wf(),
                row_start.width == start.width,
                row_start.height == start.height,
                painted(row_start, *canvas, new_pixel@, |xx: int, yy: int| in_box(xx, yy, x0 as int, x as int, y as int, y + 1)),
            decreases x1 - x,
        {
            let ghost mid = *canvas;
            blend_pixel(canvas, x, y, new_pixel);
            proof {
                let h1 = |xx: int, yy: int| in_box(xx, yy, x0 as int, x as int, y as int, y + 1);
                let h2 = |xx: int, yy: int| if xx == x && yy == y { 1nat } else { 0nat };
                lemma_painted_compose(row_start, mid, *canvas, new_pixel@, h1, h2);
                lemma_painted_same_hits(row_start, *canvas, new_pixel@, |xx: int, yy: int| h1(xx, yy) + h2(xx, yy), |xx: int, yy: int| in_box(xx, yy, x0 as int, x + 1, y as int, y + 1));
            }
            x = x + 1;
        }
        proof {
            let h1 = |xx: int, yy: int| in_box(xx, yy, x0 as int, x1 as int, y0 as int, y as int);
            let h2 = |xx: int, yy: int| in_box(xx, yy, x0 as int, x as int, y as int, y + 1);
            lemma_painted_compose(start, row_start, *canvas, new_pixel@, h1, h2);
            lemma_painted_same_hits(start, *canvas, new_pixel@, |xx: int, yy: int| h1(xx, yy) + h2(xx, yy), |xx: int, yy: int| in_box(xx, yy, x0 as int, x1 as int, y0 as int, y + 1));
        }
        y = y + 1;
    }
    proof {
        lemma_painted_same_hits(start, *canvas, new_pixel@, |xx: int, yy: int| in_box(xx, yy, x0 as int, x1 as int, y0 as int, y as int), |xx: int, yy: int| in_box(xx, yy, x0 as int, x1 as int, y0 as int, y1 as int));
    }
}

/// One when `(x, y)` is on the row `row` between columns `x1` (included)
/// and `x2` (excluded).
pub open spec fn on_row(x: int, y: int, x1: int, x2: int, row: int) -> nat {
    if y == row && x1 <= x < x2 {
        1
    } else {
        0
    }
}

/// One when `(x, y)` is on the column `col` between rows `y1` (included)
/// and `y2` (excluded).
pub open spec fn on_column(x: int, y: int, col: int, y1: int, y2: int) -> nat {
    if x == col && y1 <= y < y2 {
        1
    } else {
        0
    }
}

/// Draws `pixel` along row `y` from column `x1` up to `x2`, clipped to the
/// canvas.
pub fn draw_horizontal_line(canvas: &mut Image, x1: i64, x2: i64, y: i64, pixel: &[u8; 4])
    requires
        old(canvas).wf(),
    ensures
        painted(*old(canvas), *final(canvas), pixel@, |xx: int, yy: int| on_row(xx, yy, x1 as int, x2 as int, y as int)),
{
    let ghost start = *canvas;
    if y < 0 || (y as u64) >= (canvas.height as u64) {
        proof {
            lemma_painted_none(start, pixel@);
            lemma_painted_same_hits(start, start, pixel@, |xx: int, yy: int| 0nat, |xx: int, yy: int| on_row(xx, yy, x1 as int, x2 as int, y as int));
        }
        return;
    }
    let row = y as usize;
    let xs = clamp_to(x1, canvas.width);
    let xe = clamp_to(x2, canvas.width);
    fill_box(canvas, xs, xe, row, row + 1, pixel);
    proof {
        lemma_painted_same_hits(start, *canvas, pixel@, |xx: int, yy: int| in_box(xx, yy, xs as int, xe as int, row as int, row + 1), |xx: int, yy: int| on_row(xx, yy, x1 as int, x2 as int, y as int));
    }
}

/// Draws `pixel` along column `x` from row `y1` up to `y2`, clipped to the
/// canvas.
pub fn draw_vertical_line(canvas: &mut Image, x: i64, y1: i64, y2: i64, pixel: &[u8; 4])
    requires
        old(canvas).wf(),
    ensures
        painted(*old(canvas), *final(canvas), pixel@, |xx: int, yy: int| on_column(xx, yy, x as int, y1 as int, y2 as int)),
{
    let ghost start = *canvas;
    if x < 0 || (x as u64) >= (canvas.width as u64) {
        proof {
            lemma_painted_none(start, pixel@);
            lemma_painted_same_hits(start, start, pixel@, |xx: int, yy: int| 0nat, |xx: int, yy: int| on_column(xx, yy, x as int, y1 as int, y2 as int));
        }
        return;
    }
    let col = x as usize;
    let ys = clamp_to(y1, canvas.height);
    let ye = clamp_to(y2, canvas.height);
    fill_box(canvas, col, col + 1, ys, ye, pixel);
    proof {
        lemma_painted_same_hits(start, *canvas, pixel@, |xx: int, yy: int| in_box(xx, yy, col as int, col + 1, ys as int, ye as int), |xx: int, yy: int| on_column(xx, yy, x as int, y1 as int, y2 as int));
    }
}

/// Fills `rect`, clipped to the canvas, with `color` blended over it.
pub fn fill_rectangle(canvas: &mut Image, rect: &PixelRect, color: Color)
    requires
        old(canvas).wf(),
    ensures
        painted(*old(canvas), *final(canvas), color.bytes(), |xx: int, yy: int| in_box(xx, yy, rect.x as int, rect.x + rect.width, rect.y as int, rect.y + rect.height)),
{
    let ghost start = *canvas;
    let x0 = clamp_to(rect.x as i64, canvas.width);
    let x1 = clamp_to(rect.x as i64 + rect.width as i64, canvas.width);
    let y0 = clamp_to(rect.y as i64, canvas.height);
    let y1 = clamp_to(rect.y as i64 + rect.height as i64, canvas.height);
    let pixel: [u8; 4] = [color.r, color.g, color.b, color.a];
    assert(pixel@ =~= color.bytes());
    fill_box(canvas, x0, x1, y0, y1, &pixel);
    proof {
        lemma_painted_same_hits(start, *canvas, pixel@, |xx: int, yy: int| in_box(xx, yy, x0 as int, x1 as int, y0 as int, y1 as int), |xx: int, yy: int| in_box(xx, yy, rect.x as int, rect.x + rect.width, rect.y as int, rect.y + rect.height));
    }
}

/// How often the top and bottom edges of an outline of thickness `t`
/// cover `(x, y)`: rows `y + i` and `y + height - i` for `i < t`.
pub open spec fn outline_rows(r: PixelRect, t: nat, x: int, y: int) -> nat
    decreases t,
{
    if t == 0 {
        0
    } else {
        let i = t - 1;
        outline_rows(r, (t - 1) as nat, x, y) + on_row(x, y, r.x as int, r.x + r.width, r.y + i)
            + on_row(x, y, r.x as int, r.x + r.width, r.y + r.height - i)
    }
}

/// How often the left and right edges of an outline of thickness `t`
/// cover `(x, y)`: columns `x + i` and `x + width - i` for `i < t`.
pub open spec fn outline_columns(r: PixelRect, t: nat, x: int, y: int) -> nat
    decreases t,
{
    if t == 0 {
        0
    } else {
        let i = t - 1;
        outline_columns(r, (t - 1) as nat, x, y) + on_column(x, y, r.x + i, r.y as int, r.y + r.height)
            + on_column(x, y, r.x + r.width - i, r.y as int, r.y + r.height)
    }
}

/// Draws the outline of `rect` with lines `thickness` pixels wide.
pub fn draw_rectangle_outline(canvas: &mut Image, rect: &PixelRect, color: Color, thickness: u32)
    requires
        old(canvas).wf(),
    ensures
        painted(*old(canvas), *final(canvas), color.bytes(), |xx: int, yy: int| outline_rows(*rect, thickness as nat, xx, yy) + outline_columns(*rect, thickness as nat, xx, yy)),
{
    let ghost start = *canvas;
    let pixel: [u8; 4] = [color.r, color.g, color.b, color.a];
    assert(pixel@ =~= color.bytes());
    let left = rect.x as i64;
    let right = rect.x as i64 + rect.width as i64;
    let top = rect.y as i64;
    let bottom = rect.y as i64 + rect.height as i64;
    let mut t: u32 = 0;
    proof {
        lemma_painted_none(start, pixel@);
        lemma_painted_same_hits(start, start, pixel@, |xx: int, yy: int| 0nat, |xx: int, yy: int| outline_rows(*rect, 0, xx, yy));
    }
    while t < thickness
        invariant
            t <= thickness,
            start.wf(),
            left == rect.x && right == rect.x + rect.width && top == rect.y && bottom == rect.y + rect.height,
            painted(start, *canvas, pixel@, |xx: int, yy: int| outline_rows(*rect, t as nat, xx, yy)),
        decreases thickness - t,
    {
        let ghost c0 = *canvas;
        draw_horizontal_line(canvas, left, right, top + t as i64, &pixel);
        let ghost c1 = *canvas;
        draw_horizontal_line(canvas, left, right, bottom - t as i64, &pixel);
        proof {
            let h0 = |xx: int, yy: int| outline_rows(*rect, t as nat, xx, yy);
            let h1 = |xx: int, yy: int| on_row(xx, yy, left as int, right as int, top + t);
            let h2 = |xx: int, yy: int| on_row(xx, yy, left as int, right as int, bottom - t);
            lemma_painted_compose(start, c0, c1, pixel@, h0, h1);
            lemma_painted_compose(start, c1, *canvas, pixel@, |xx: int, yy: int| h0(xx, yy) + h1(xx, yy), h2);
            lemma_painted_same_hits(start, *canvas, pixel@, |xx: int, yy: int| h0(xx, yy) + h1(xx, yy) + h2(xx, yy), |xx: int, yy: int| outline_rows(*rect, (t + 1) as nat, xx, yy));
        }
        t = t + 1;
    }
    let ghost mid = *canvas;
    let mut t: u32 = 0;
    proof {
        lemma_painted_none(mid, pixel@);
        lemma_painted_same_hits(mid, mid, pixel@, |xx: int, yy: int| 0nat, |xx: int, yy: int| outline_columns(*rect, 0, xx, yy));
    }
    while t < thickness
        invariant
            t <= thickness,
            mid.wf(),
            mid.width == start.width && mid.height == start.height && mid.channels == start.channels,
            left == rect.x && right == rect.x + rect.width && top == rect.y && bottom == rect.y + rect.height,
            painted(mid, *canvas, pixel@, |xx: int, yy: int| outline_columns(*rect, t as nat, xx, yy)),
        decreases thickness - t,
    {
        let ghost c0 = *canvas;
        draw_vertical_line(canvas, left + t as i64, top, bottom, &pixel);
        let ghost c1 = *canvas;
        draw_vertical_line(canvas, right - t as i64, top, bottom, &pixel);
        proof {
            let h0 = |xx: int, yy: int| outline_columns(*rect, t as nat, xx, yy);
            let h1 = |xx: int, yy: int| on_column(xx, yy, left + t, top as int, bottom as int);
            let h2 = |xx: int, yy: int| on_column(xx, yy, right - t, top as int, bottom as int);
            lemma_painted_compose(mid, c0, c1, pixel@, h0, h1);
            lemma_painted_compose(mid, c1, *canvas, pixel@, |xx: int, yy: int| h0(xx, yy) + h1(xx, yy), h2);
            lemma_painted_same_hits(mid, *canvas, pixel@, |xx: int, yy: int| h0(xx, yy) + h1(xx, yy) + h2(xx, yy), |xx: int, yy: int| outline_columns(*rect, (t + 1) as nat, xx, yy));
        }
        t = t + 1;
    }
    proof {
        lemma_painted_compose(start, mid, *canvas, pixel@, |xx: int, yy: int| outline_rows(*rect, thickness as nat, xx, yy), |xx: int, yy: int| outline_columns(*rect, thickness as nat, xx, yy));
    }
}

/// A monochrome glyph: `pixels[y * width + x]` is set where ink is.
#[derive(Debug, Clone)]
pub struct CharacterBitmap {
    pub width: usize,
    pub height: usize,
    pub pixels: Vec<bool>,
}

impl CharacterBitmap {
    /// The pixel vector matches the dimensions.
    pub open spec fn wf(&self) -> bool {
        self.width * self.height == self.pixels@.len()
    }

    /// Whether the glyph has ink at `(x, y)`.
    pub open spec fn ink(&self, x: int, y: int) -> bool {
        0 <= x < self.width && 0 <= y < self.height && self.pixels@[y * self.width + x]
    }
}

/// Bit `x` (from the left) of the eight-pixel row `row`.
pub open spec fn row_bit(row: u8, x: int) -> bool {
    (row >> ((7 - x) as u8)) & 1u8 == 1u8
}

/// The 8 x 12 glyph whose rows are the bytes `rows`, leftmost pixel in the
/// high bit.
pub open spec fn glyph_pixels(rows: Seq<u8>) -> Seq<bool> {
    Seq::new(96, |i: int| row_bit(rows[i / 8], i % 8))
}

/// The rows of the font's `A`.
pub open spec fn rows_a() -> Seq<u8> {
    seq![0x18u8, 0x24, 0x24, 0x42, 0x42, 0x7e, 0x42, 0x81, 0x81, 0x81, 0x00, 0x00]
}

/// The rows of the font's box for characters it lacks, drawn for `?`.
pub open spec fn rows_unknown() -> Seq<u8> {
    seq![0xffu8, 0x81, 0x81, 0x81, 0x81, 0x81, 0x81, 0x81, 0x81, 0xff, 0x00, 0x00]
}

/// The rows of the font's space.
pub open spec fn rows_space() -> Seq<u8> {
    seq![0u8, 0, 0, 0, 0, 0, 0, 0, 0, 0, 0, 0]
}

/// The 8 x 12 glyph with the rows `rows`.
pub fn bitmap_from_rows(rows: &[u8; 12]) -> (b: CharacterBitmap)
    ensures
        b.wf(),
        b.width == 8,
        b.height == 12,
        b.pixels@ == glyph_pixels(rows@),
{
    let mut pixels: Vec<bool> = Vec::new();
    let mut y: usize = 0;
    while y < 12
        invariant
            y <= 12,
            pixels@.len() == y * 8,
            forall|i: int| 0 <= i < y * 8 ==> pixels@[i] == row_bit(rows@[i / 8], i % 8),
        decreases 12 - y,
    {
        let mut x: usize = 0;
        while x < 8
            invariant
                y < 12,
                x <= 8,
                pixels@.len() == y * 8 + x,
                forall|i: int| 0 <= i < y * 8 + x ==> pixels@[i] == row_bit(rows@[i / 8], i % 8),
            decreases 8 - x,
        {
            let bit = (rows[y] >> (7 - x as u8)) & 1u8 == 1u8;
            pixels.push(bit);
            assert((y * 8 + x) / 8 == y && (y * 8 + x) % 8 == x) by (nonlinear_arith)
                requires
                    x < 8,
            ;
            x = x + 1;
        }
        y = y + 1;
    }
    assert(pixels@ =~= glyph_pixels(rows@));
    CharacterBitmap { width: 8, height: 12, pixels }
}

/// The glyphs of the built-in font: `A`, space, and a box drawn for `?`.
pub struct FontCache {
    character_bitmaps: Vec<(char, CharacterBitmap)>,
}

impl FontCache {
    /// The characters the font has, in storage order, with their glyphs.
    pub closed spec fn glyphs(self) -> Seq<(char, CharacterBitmap)> {
        self.character_bitmaps@
    }

    /// The glyph of `ch`, if the font has one.
    pub open spec fn glyph(self, ch: char) -> Option<CharacterBitmap> {
        if exists|i: int| 0 <= i < self.glyphs().len() && #[trigger] self.glyphs()[i].0 == ch {
            Some(self.glyphs()[choose|i: int| 0 <= i < self.glyphs().len() && #[trigger] self.glyphs()[i].0 == ch].1)
        } else {
            None
        }
    }

    /// Characters appear once, and every glyph is 8 x 12.
    pub closed spec fn wf(self) -> bool {
        &&& forall|i: int, j: int|
            0 <= i < j < self.glyphs().len() ==> #[trigger] self.glyphs()[i].0 != #[trigger] self.glyphs()[j].0
        &&& forall|i: int|
            0 <= i < self.glyphs().len() ==> (#[trigger] self.glyphs()[i]).1.wf()
                && self.glyphs()[i].1.width == 8 && self.glyphs()[i].1.height == 12
    }

    /// The built-in font.
    pub fn new() -> (f: Self)
        ensures
            f.wf(),
            f.glyph('A') matches Some(g) && g.width == 8 && g.height == 12 && g.pixels@ == glyph_pixels(rows_a()),
            f.glyph(' ') matches Some(g) && g.width == 8 && g.height == 12 && g.pixels@ == glyph_pixels(rows_space()),
            f.glyph('?') matches Some(g) && g.width == 8 && g.height == 12 && g.pixels@ == glyph_pixels(rows_unknown()),
            forall|c: char| c != 'A' && c != ' ' && c != '?' ==> f.glyph(c) is None,
    {
        let a_rows: [u8; 12] = [0x18, 0x24, 0x24, 0x42, 0x42, 0x7e, 0x42, 0x81, 0x81, 0x81, 0x00, 0x00];
        let space_rows: [u8; 12] = [0; 12];
        let unknown_rows: [u8; 12] = [0xff, 0x81, 0x81, 0x81, 0x81, 0x81, 0x81, 0x81, 0x81, 0xff, 0x00, 0x00];
        assert(a_rows@ =~= rows_a());
        assert(space_rows@ =~= rows_space());
        assert(unknown_rows@ =~= rows_unknown());
        let mut v: Vec<(char, CharacterBitmap)> = Vec::new();
        v.push(('A', bitmap_from_rows(&a_rows)));
        v.push((' ', bitmap_from_rows(&space_rows)));
        v.push(('?', bitmap_from_rows(&unknown_rows)));
        let f = FontCache { character_bitmaps: v };
        proof {
            let g = f.glyphs();
            assert(g[0].0 == 'A' && g[1].0 == ' ' && g[2].0 == '?');
            assert forall|c: char| c != 'A' && c != ' ' && c != '?' implies f.glyph(c) is None by {
                if exists|i: int| 0 <= i < g.len() && #[trigger] g[i].0 == c {
                    let i = choose|i: int| 0 <= i < g.len() && #[trigger] g[i].0 == c;
                    assert(i == 0 || i == 1 || i == 2);
                }
            }
            let ia = choose|i: int| 0 <= i < g.len() && #[trigger] g[i].0 == 'A';
            assert(g[0].0 == 'A');
            assert(ia == 0);
            let is = choose|i: int| 0 <= i < g.len() && #[trigger] g[i].0 == ' ';
            assert(g[1].0 == ' ');
            assert(is == 1);
            let iq = choose|i: int| 0 <= i < g.len() && #[trigger] g[i].0 == '?';
            assert(g[2].0 == '?');
            assert(iq == 2);
        }
        f
    }

    /// The glyph of `ch`, if the font has one.
    pub fn get_character_bitmap(&self, ch: char) -> (r: Option<&CharacterBitmap>)
        requires
            self.wf(),
        ensures
            match r {
                Some(b) => self.glyph(ch) == Some(*b),
                None => self.glyph(ch) is None,
            },
    {
        let mut i: usize = 0;
        while i < self.character_bitmaps.len()
            invariant
                self.wf(),
                i <= self.character_bitmaps.len(),
                forall|q: int| 0 <= q < i ==> (#[trigger] self.glyphs()[q]).0 != ch,
            decreases self.character_bitmaps.len() - i,
        {
            if self.character_bitmaps[i].0 == ch {
                proof {
                    let g = self.glyphs();
                    let c = choose|q: int| 0 <= q < g.len() && #[trigger] g[q].0 == ch;
                    assert(g[i as int].0 == ch);
                    if c < i {
                        assert(g[c].0 != ch);
                    }
                    if c > i {
                        assert(g[i as int].0 != g[c].0);
                    }
                }
                return Some(&self.character_bitmaps[i].1);
            }
            i = i + 1;
        }
        None
    }
}

/// One where the glyph `b` drawn with its top-left corner at `(px, py)` has
/// ink over `(x, y)`.
pub open spec fn glyph_hit(b: CharacterBitmap, px: int, py: int, x: int, y: int) -> nat {
    if b.ink(x - px, y - py) {
        1
    } else {
        0
    }
}

/// `glyph_hit` restricted to the glyph rows before `ry` and, on row `ry`,
/// the columns before `rx`.
pub open spec fn glyph_prefix_hit(b: CharacterBitmap, px: int, py: int, ry: int, rx: int, x: int, y: int) -> nat {
    if y - py < ry || (y - py == ry && x - px < rx) {
        glyph_hit(b, px, py, x, y)
    } else {
        0
    }
}

/// Draws the inked pixels of `bitmap` with its top-left corner at
/// `(px, py)`, clipped to the canvas.
pub fn draw_character_bitmap(canvas: &mut Image, bitmap: &CharacterBitmap, px: i64, py: i64, color: Color)
    requires
        old(canvas).wf(),
        bitmap.wf(),
        bitmap.width <= i32::MAX,
        bitmap.height <= i32::MAX,
        -0x4000_0000_0000_0000 <= px <= 0x4000_0000_0000_0000,
        -0x4000_0000_0000_0000 <= py <= 0x4000_0000_0000_0000,
    ensures
        painted(*old(canvas), *final(canvas), color.bytes(), |xx: int, yy: int| glyph_hit(*bitmap, px as int, py as int, xx, yy)),
{
    let ghost start = *canvas;
    let pixel: [u8; 4] = [color.r, color.g, color.b, color.a];
    assert(pixel@ =~= color.bytes());
    let w = bitmap.width;
    let h = bitmap.height;
    proof {
        lemma_painted_none(start, pixel@);
        lemma_painted_same_hits(start, start, pixel@, |xx: int, yy: int| 0nat, |xx: int, yy: int| glyph_prefix_hit(*bitmap, px as int, py as int, 0, 0, xx, yy));
    }
    let mut y: usize = 0;
    while y < h
        invariant
            y <= h,
            w == bitmap.width,
            h == bitmap.height,
            bitmap.wf(),
            bitmap.width <= i32::MAX,
            bitmap.height <= i32::MAX,
            -0x4000_0000_0000_0000 <= px <= 0x4000_0000_0000_0000,
            -0x4000_0000_0000_0000 <= py <= 0x4000_0000_0000_0000,
            start.wf(),
            painted(start, *canvas, pixel@, |xx: int, yy: int| glyph_prefix_hit(*bitmap, px as int, py as int, y as int, 0, xx, yy)),
        decreases h - y,
    {
        let mut x: usize = 0;
        while x < w
            invariant
                y < h,
                x <= w,
                w == bitmap.width,
                h == bitmap.height,
                bitmap.wf(),
                bitmap.width <= i32::MAX,
                bitmap.height <= i32::MAX,
                -0x4000_0000_0000_0000 <= px <= 0x4000_0000_0000_0000,
                -0x4000_0000_0000_0000 <= py <= 0x4000_0000_0000_0000,
                start.wf(),
                painted(start, *canvas, pixel@, |xx: int, yy: int| glyph_prefix_hit(*bitmap, px as int, py as int, y as int, x as int, xx, yy)),
            decreases w - x,
        {
            assert(y * w + x < w * h) by (nonlinear_arith)
                requires
                    y < h,
                    x < w,
            ;
            assert(y * w + x < bitmap.pixels.len());
            let idx = y * w + x;
            let ghost before = *canvas;
            let qx = px + x as i64;
            let qy = py + y as i64;
            if bitmap.pixels[idx] && qx >= 0 && qy >= 0 && (qx as u64) < (canvas.width as u64)
                && (qy as u64) < (canvas.height as u64) {
                blend_pixel(canvas, qx as usize, qy as usize, &pixel);
                proof {
                    lemma_painted_compose(start, before, *canvas, pixel@, |xx: int, yy: int| glyph_prefix_hit(*bitmap, px as int, py as int, y as int, x as int, xx, yy), |xx: int, yy: int| if xx == qx && yy == qy { 1nat } else { 0nat });
                    lemma_painted_same_hits(start, *canvas, pixel@, |xx: int, yy: int| glyph_prefix_hit(*bitmap, px as int, py as int, y as int, x as int, xx, yy) + (if xx == qx && yy == qy { 1nat } else { 0nat }), |xx: int, yy: int| glyph_prefix_hit(*bitmap, px as int, py as int, y as int, x + 1, xx, yy));
                }
            } else {
                proof {
                    lemma_painted_same_hits(start, *canvas, pixel@, |xx: int, yy: int| glyph_prefix_hit(*bitmap, px as int, py as int, y as int, x as int, xx, yy), |xx: int, yy: int| glyph_prefix_hit(*bitmap, px as int, py as int, y as int, x + 1, xx, yy));
                }
            }
            x = x + 1;
        }
        proof {
            assert forall|xx: int, yy: int| start.in_bounds(xx, yy) implies glyph_prefix_hit(*bitmap, px as int, py as int, y as int, w as int, xx, yy) == glyph_prefix_hit(*bitmap, px as int, py as int, y + 1, 0, xx, yy) by {
                if yy - py == y && xx - px >= w {
                    assert(!bitmap.ink(xx - px, yy - py));
                }
            }
            lemma_painted_same_hits(start, *canvas, pixel@, |xx: int, yy: int| glyph_prefix_hit(*bitmap, px as int, py as int, y as int, w as int, xx, yy), |xx: int, yy: int| glyph_prefix_hit(*bitmap, px as int, py as int, y + 1, 0, xx, yy));
        }
        y = y + 1;
    }
    proof {
        lemma_painted_same_hits(start, *canvas, pixel@, |xx: int, yy: int| glyph_prefix_hit(*bitmap, px as int, py as int, h as int, 0, xx, yy), |xx: int, yy: int| glyph_hit(*bitmap, px as int, py as int, xx, yy));
    }
}

/// How often the text `chars`, drawn from `(px, py)` with an 8-pixel
/// advance per character, inks `(x, y)`; characters without a glyph are
/// skipped but still advance.
pub open spec fn text_hits(font: FontCache, chars: Seq<char>, px: int, py: int, x: int, y: int) -> nat
    decreases chars.len(),
{
    if chars.len() == 0 {
        0
    } else {
        let i = chars.len() - 1;
        text_hits(font, chars.drop_last(), px, py, x, y) + match font.glyph(chars[i]) {
            Some(g) => glyph_hit(g, px + 8 * i, py, x, y),
            None => 0,
        }
    }
}

/// Draws `text` with the font, its first character's top-left corner at
/// `(px, py)`.
pub fn draw_text(canvas: &mut Image, font: &FontCache, text: &str, px: i32, py: i32, color: Color)
    requires
        old(canvas).wf(),
        font.wf(),
        text@.len() <= 0x0100_0000_0000_0000,
    ensures
        painted(*old(canvas), *final(canvas), color.bytes(), |xx: int, yy: int| text_hits(*font, text@, px as int, py as int, xx, yy)),
{
    let ghost start = *canvas;
    let chars = crate::text::chars_of(text);
    let mut i: usize = 0;
    let mut x_offset: i64 = 0;
    proof {
        lemma_painted_none(start, color.bytes());
        lemma_painted_same_hits(start, start, color.bytes(), |xx: int, yy: int| 0nat, |xx: int, yy: int| text_hits(*font, chars@.take(0), px as int, py as int, xx, yy));
    }
    while i < chars.len()
        invariant
            i <= chars.len(),
            chars@ == text@,
            chars.len() <= 0x0100_0000_0000_0000,
            x_offset == 8 * i,
            font.wf(),
            start.wf(),
            painted(start, *canvas, color.bytes(), |xx: int, yy: int| text_hits(*font, chars@.take(i as int), px as int, py as int, xx, yy)),
        decreases chars.len() - i,
    {
        let ghost before = *canvas;
        let ghost prefix = chars@.take(i + 1);
        assert(prefix.drop_last() =~= chars@.take(i as int));
        assert(prefix[i as int] == chars@[i as int]);
        match font.get_character_bitmap(chars[i]) {
            Some(bitmap) => {
                proof {
                    let g = font.glyphs();
                    let k = choose|q: int| 0 <= q < g.len() && #[trigger] g[q].0 == chars@[i as int];
                    assert(g[k].1.wf() && g[k].1.width == 8 && g[k].1.height == 12);
                }
                draw_character_bitmap(canvas, bitmap, px as i64 + x_offset, py as i64, color);
                proof {
                    lemma_painted_compose(start, before, *canvas, color.bytes(), |xx: int, yy: int| text_hits(*font, chars@.take(i as int), px as int, py as int, xx, yy), |xx: int, yy: int| glyph_hit(*bitmap, px + x_offset, py as int, xx, yy));
                    lemma_painted_same_hits(start, *canvas, color.bytes(), |xx: int, yy: int| text_hits(*font, chars@.take(i as int), px as int, py as int, xx, yy) + glyph_hit(*bitmap, px + x_offset, py as int, xx, yy), |xx: int, yy: int| text_hits(*font, prefix, px as int, py as int, xx, yy));
                }
            },
            None => {
                proof {
                    lemma_painted_same_hits(start, *canvas, color.bytes(), |xx: int, yy: int| text_hits(*font, chars@.take(i as int), px as int, py as int, xx, yy), |xx: int, yy: int| text_hits(*font, prefix, px as int, py as int, xx, yy));
                }
            },
        }
        x_offset = x_offset + 8;
        i = i + 1;
    }
    proof {
        assert(chars@.take(i as int) =~= text@);
    }
}

/// Draws overlay graphics on canvases of a fixed size.
pub struct Renderer {
    canvas_width: usize,
    canvas_height: usize,
    font_cache: FontCache,
}

impl Renderer {
    /// The font the renderer writes with.
    pub closed spec fn font(self) -> FontCache {
        self.font_cache
    }

    /// The canvas width.
    pub closed spec fn width(self) -> usize {
        self.canvas_width
    }

    /// The canvas height.
    pub closed spec fn height(self) -> usize {
        self.canvas_height
    }

    /// A renderer for `width` x `height` canvases, with the built-in font.
    pub fn new(width: usize, height: usize) -> (r: Self)
        ensures
            r.width() == width,
            r.height() == height,
            r.font().wf(),
            r.font().glyph('A') is Some && r.font().glyph(' ') is Some && r.font().glyph('?') is Some,
    {
        Renderer { canvas_width: width, canvas_height: height, font_cache: FontCache::new() }
    }

    /// The canvas width.
    pub fn canvas_width(&self) -> (w: usize)
        ensures
            w == self.width(),
    {
        self.canvas_width
    }

    /// The canvas height.
    pub fn canvas_height(&self) -> (h: usize)
        ensures
            h == self.height(),
    {
        self.canvas_height
    }

    /// The renderer's font.
    pub fn font_cache(&self) -> (f: &FontCache)
        ensures
            *f == self.font(),
    {
        &self.font_cache
    }

    /// A transparent RGBA canvas of the renderer's size.
    pub fn blank_canvas(&self) -> (c: Image)
        requires
            self.width() * self.height() * 4 <= usize::MAX,
        ensures
            c.wf(),
            c.width == self.width(),
            c.height == self.height(),
            c.channels == 4,
            forall|i: int| 0 <= i < c.data@.len() ==> c.data@[i] == 0,
    {
        assert(self.width() * self.height() <= self.width() * self.height() * 4) by (nonlinear_arith);
        Image::new(self.canvas_width, self.canvas_height, 4)
    }

    /// Blends `new_pixel` over pixel `(x, y)` of `canvas` (see `blend_pixel`).
    pub fn blend_pixel(&self, canvas: &mut Image, x: usize, y: usize, new_pixel: &[u8; 4])
        requires
            old(canvas).wf(),
        ensures
            painted(*old(canvas), *final(canvas), new_pixel@, |xx: int, yy: int| if xx == x && yy == y {
                1nat
            } else {
                0nat
            }),
    {
        blend_pixel(canvas, x, y, new_pixel)
    }

    /// Writes `text` on `canvas` with the renderer's font (see `draw_text`).
    pub fn draw_text(&self, canvas: &mut Image, text: &str, px: i32, py: i32, color: Color)
        requires
            old(canvas).wf(),
            self.font().wf(),
            text@.len() <= 0x0100_0000_0000_0000,
        ensures
            painted(*old(canvas), *final(canvas), color.bytes(), |xx: int, yy: int| text_hits(self.font(), text@, px as int, py as int, xx, yy)),
    {
        draw_text(canvas, &self.font_cache, text, px, py, color)
    }
}

/// The kinds of shapes an overlay shows.
#[derive(Debug, Clone)]
pub enum OverlayElementType {
    Highlight,
    Label,
    Border,
    Arrow,
    Circle,
    Custom(String),
}

/// The easing curves an overlay animation can follow.
#[derive(Debug, Clone, Copy, PartialEq, Eq)]
pub enum EasingFunction {
    Linear,
    EaseIn,
    EaseOut,
    EaseInOut,
    Bounce,
    Elastic,
    Back,
    Sine,
    Quad,
    Cubic,
    Quart,
    Quint,
    Expo,
    Circ,
}

/// How many times the point `(x, y)` occurs in `s`.
pub open spec fn point_count(s: Seq<(int, int)>, x: int, y: int) -> nat
    decreases s.len(),
{
    if s.len() == 0 {
        0
    } else {
        point_count(s.drop_last(), x, y) + if s.last() == (x, y) {
            1nat
        } else {
            0nat
        }
    }
}

proof fn lemma_point_count_concat(a: Seq<(int, int)>, b: Seq<(int, int)>, x: int, y: int)
    ensures
        point_count(a + b, x, y) == point_count(a, x, y) + point_count(b, x, y),
    decreases b.len(),
{
    if b.len() == 0 {
        assert(a + b =~= a);
    } else {
        lemma_point_count_concat(a, b.drop_last(), x, y);
        assert((a + b).drop_last() =~= a + b.drop_last());
    }
}

/// The eight points symmetric to `(x, y)` around `(cx, cy)`, in the order
/// they are drawn.
pub open spec fn eight_points(cx: int, cy: int, x: int, y: int) -> Seq<(int, int)> {
    seq![
        (cx + x, cy + y),
        (cx - x, cy + y),
        (cx + x, cy - y),
        (cx - x, cy - y),
        (cx + y, cy + x),
        (cx - y, cy + x),
        (cx + y, cy - x),
        (cx - y, cy - x),
    ]
}

/// One step of the midpoint circle walk from `(x, y)` with error `err`:
/// up a row while the error allows, then in a column when the error says.
pub open spec fn circle_step(x: int, y: int, err: int) -> (int, int, int) {
    let (y1, e1) = if err <= 0 {
        (y + 1, err + 2 * (y + 1) + 1)
    } else {
        (y, err)
    };
    if e1 > 0 {
        (x - 1, y1, e1 - 2 * (x - 1) - 1)
    } else {
        (x, y1, e1)
    }
}

/// The points drawn by the midpoint circle walk around `(cx, cy)` from
/// `(x, y)` with error `err` on: the eight symmetric points of each step
/// while `x >= y`.
pub open spec fn circle_points(cx: int, cy: int, x: int, y: int, err: int) -> Seq<(int, int)>
    decreases x - y + 2,
{
    if x < y {
        Seq::empty()
    } else {
        let n = circle_step(x, y, err);
        eight_points(cx, cy, x, y) + circle_points(cx, cy, n.0, n.1, n.2)
    }
}

/// Draws `pixel` over the point `(px, py)` when it is on the canvas.
fn plot_point(canvas: &mut Image, px: i64, py: i64, pixel: &[u8; 4])
    requires
        old(canvas).wf(),
    ensures
        painted(*old(canvas), *final(canvas), pixel@, |x: int, y: int| if x == px && y == py { 1nat } else { 0nat }),
{
    let ghost start = *canvas;
    if px >= 0 && py >= 0 && (px as u64) < (canvas.width as u64) && (py as u64) < (canvas.height as u64) {
        blend_pixel(canvas, px as usize, py as usize, pixel);
    } else {
        proof {
            lemma_painted_none(start, pixel@);
            lemma_painted_same_hits(start, start, pixel@, |x: int, y: int| 0nat, |x: int, y: int| if x == px && y == py { 1nat } else { 0nat });
        }
    }
}

/// Draws the eight points symmetric to `(x, y)` around `(cx, cy)`.
fn plot_circle_points(canvas: &mut Image, cx: i64, cy: i64, x: i64, y: i64, pixel: &[u8; 4])
    requires
        old(canvas).wf(),
        -0x4000_0000 <= cx <= 0x4000_0000,
        -0x4000_0000 <= cy <= 0x4000_0000,
        -0x4000_0000 <= x <= 0x4000_0000,
        -0x4000_0000 <= y <= 0x4000_0000,
    ensures
        painted(*old(canvas), *final(canvas), pixel@, |px: int, py: int| point_count(eight_points(cx as int, cy as int, x as int, y as int), px, py)),
{
    let ghost start = *canvas;
    let ghost pts = eight_points(cx as int, cy as int, x as int, y as int);
    proof {
        lemma_painted_none(start, pixel@);
        assert(pts.take(0) =~= Seq::<(int, int)>::empty());
        lemma_painted_same_hits(start, start, pixel@, |px: int, py: int| 0nat, |px: int, py: int| point_count(pts.take(0), px, py));
    }
    let xs: [i64; 8] = [cx + x, cx - x, cx + x, cx - x, cx + y, cx - y, cx + y, cx - y];
    let ys: [i64; 8] = [cy + y, cy + y, cy - y, cy - y, cy + x, cy + x, cy - x, cy - x];
    assert(forall|k: int| 0 <= k < 8 ==> (xs@[k] as int, ys@[k] as int) == #[trigger] pts[k]);
    let mut k: usize = 0;
    while k < 8
        invariant
            k <= 8,
            start.wf(),
            pts == eight_points(cx as int, cy as int, x as int, y as int),
            forall|q: int| 0 <= q < 8 ==> (xs@[q] as int, ys@[q] as int) == #[trigger] pts[q],
            painted(start, *canvas, pixel@, |px: int, py: int| point_count(pts.take(k as int), px, py)),
        decreases 8 - k,
    {
        let ghost mid = *canvas;
        plot_point(canvas, xs[k], ys[k], pixel);
        proof {
            let h1 = |px: int, py: int| point_count(pts.take(k as int), px, py);
            let h2 = |px: int, py: int| if px == xs@[k as int] && py == ys@[k as int] { 1nat } else { 0nat };
            lemma_painted_compose(start, mid, *canvas, pixel@, h1, h2);
            assert(pts.take(k + 1).drop_last() =~= pts.take(k as int));
            assert(pts.take(k + 1).last() == pts[k as int]);
            assert(pts[k as int] == (xs@[k as int] as int, ys@[k as int] as int));
            lemma_painted_same_hits(start, *canvas, pixel@, |px: int, py: int| h1(px, py) + h2(px, py), |px: int, py: int| point_count(pts.take(k + 1), px, py));
        }
        k = k + 1;
    }
    proof {
        assert(pts.take(8) =~= pts);
    }
}

/// Draws the outline of the circle of radius `r` around `(cx, cy)` with
/// the midpoint circle walk: each point drawn once per time the walk
/// reaches it, points off the canvas left out.
pub fn draw_circle(canvas: &mut Image, cx: i32, cy: i32, r: i32, color: Color)
    requires
        old(canvas).wf(),
        -0x2000_0000 <= cx <= 0x2000_0000,
        -0x2000_0000 <= cy <= 0x2000_0000,
        r <= 0x1000_0000,
    ensures
        painted(*old(canvas), *final(canvas), color.bytes(), |px: int, py: int| point_count(circle_points(cx as int, cy as int, r as int, 0, 0), px, py)),
{
    let ghost start = *canvas;
    let pixel: [u8; 4] = [color.r, color.g, color.b, color.a];
    assert(pixel@ =~= color.bytes());
    let ghost all = circle_points(cx as int, cy as int, r as int, 0, 0);
    let cx = cx as i64;
    let cy = cy as i64;
    let mut x: i64 = r as i64;
    let mut y: i64 = 0;
    let mut err: i64 = 0;
    let ghost mut done: Seq<(int, int)> = Seq::empty();
    proof {
        lemma_painted_none(start, pixel@);
        lemma_painted_same_hits(start, start, pixel@, |px: int, py: int| 0nat, |px: int, py: int| point_count(done, px, py));
        assert(all =~= done + circle_points(cx as int, cy as int, x as int, y as int, err as int));
    }
    while x >= y
        invariant
            start.wf(),
            0 <= y <= 0x1000_0002,
            x <= 0x1000_0000,
            x >= y - 2 || (x == r && y == 0),
            r >= 0 ==> -(2 * x + 1) < err && (x >= y ==> err <= 2 * y + 1),
            r < 0 ==> x == r && err == 0,
            -0x2000_0000 <= cx <= 0x2000_0000,
            -0x2000_0000 <= cy <= 0x2000_0000,
            all == done + circle_points(cx as int, cy as int, x as int, y as int, err as int),
            painted(start, *canvas, pixel@, |px: int, py: int| point_count(done, px, py)),
        decreases x - y + 2,
    {
        let ghost mid = *canvas;
        plot_circle_points(canvas, cx, cy, x, y, &pixel);
        proof {
            let e8 = eight_points(cx as int, cy as int, x as int, y as int);
            let h1 = |px: int, py: int| point_count(done, px, py);
            let h2 = |px: int, py: int| point_count(e8, px, py);
            lemma_painted_compose(start, mid, *canvas, pixel@, h1, h2);
            assert forall|px: int, py: int| #[trigger] point_count(done + e8, px, py) == h1(px, py) + h2(px, py) by {
                lemma_point_count_concat(done, e8, px, py);
            }
            lemma_painted_same_hits(start, *canvas, pixel@, |px: int, py: int| h1(px, py) + h2(px, py), |px: int, py: int| point_count(done + e8, px, py));
            let n = circle_step(x as int, y as int, err as int);
            assert(all =~= (done + e8) + circle_points(cx as int, cy as int, n.0, n.1, n.2));
            done = done + e8;
        }
        if err <= 0 {
            y = y + 1;
            err = err + 2 * y + 1;
        }
        if err > 0 {
            x = x - 1;
            err = err - 2 * x - 1;
        }
    }
    proof {
        assert(circle_points(cx as int, cy as int, x as int, y as int, err as int) == Seq::<(int, int)>::empty());
        assert(all =~= done);
    }
}

/// The horizontal and vertical extents and step directions of the line
/// from `(x0, y0)` to `(x1, y1)`.
pub open spec fn line_setup(x0: int, y0: int, x1: int, y1: int) -> (int, int, int, int) {
    let a = if x1 >= x0 { x1 - x0 } else { x0 - x1 };
    let b = if y1 >= y0 { y1 - y0 } else { y0 - y1 };
    let sx = if x0 < x1 { 1int } else { -1int };
    let sy = if y0 < y1 { 1int } else { -1int };
    (a, b, sx, sy)
}

/// One step of Bresenham's walk from `(x, y)` with error `err`: a column
/// when twice the error is at least `-b`, a row when it is at most `a`.
pub open spec fn line_step(x: int, y: int, err: int, a: int, b: int, sx: int, sy: int) -> (int, int, int) {
    let e2 = 2 * err;
    let (nx, e1) = if e2 >= -b {
        (x + sx, err - b)
    } else {
        (x, err)
    };
    if e2 <= a {
        (nx, y + sy, e1 + a)
    } else {
        (nx, y, e1)
    }
}

/// Where Bresenham's walk from `(x0, y0)` towards `(x1, y1)` is after `k`
/// steps, with its error.
pub open spec fn line_state(x0: int, y0: int, x1: int, y1: int, k: nat) -> (int, int, int)
    decreases k,
{
    let (a, b, sx, sy) = line_setup(x0, y0, x1, y1);
    if k == 0 {
        (x0, y0, a - b)
    } else {
        let s = line_state(x0, y0, x1, y1, (k - 1) as nat);
        line_step(s.0, s.1, s.2, a, b, sx, sy)
    }
}

/// The first `n` points of the walk.
pub open spec fn line_points(x0: int, y0: int, x1: int, y1: int, n: nat) -> Seq<(int, int)> {
    Seq::new(n, |k: int| (line_state(x0, y0, x1, y1, k as nat).0, line_state(x0, y0, x1, y1, k as nat).1))
}

/// The walk is at its end point after `k` steps.
pub open spec fn line_at_end(x0: int, y0: int, x1: int, y1: int, k: nat) -> bool {
    line_state(x0, y0, x1, y1, k).0 == x1 && line_state(x0, y0, x1, y1, k).1 == y1
}

proof fn lemma_line_progress(a: int, b: int, kx: int, ky: int, err: int)
    requires
        0 <= kx <= a,
        0 <= ky <= b,
        !(kx == a && ky == b),
        err == a * (ky + 1) - b * (kx + 1),
        -3 * b <= 2 * err <= 3 * a,
    ensures
        ({
            let kx2 = if 2 * err >= -b { kx + 1 } else { kx };
            let ky2 = if 2 * err <= a { ky + 1 } else { ky };
            let err2 = err - (if 2 * err >= -b { b } else { 0 }) + (if 2 * err <= a { a } else { 0 });
            &&& 0 <= kx2 <= a
            &&& 0 <= ky2 <= b
            &&& kx2 + ky2 > kx + ky
            &&& err2 == a * (ky2 + 1) - b * (kx2 + 1)
            &&& -3 * b <= 2 * err2 <= 3 * a
        }),
{
    if kx == a {
        assert(b >= 1);
        assert(a * (ky + 1) <= a * b) by (nonlinear_arith)
            requires
                ky + 1 <= b,
                a >= 0,
        ;
        assert(a * (ky + 1) - b * (a + 1) == a * (ky + 1) - a * b - b) by (nonlinear_arith);
        assert(2 * err < -b);
    }
    if ky == b {
        assert(a >= 1);
        assert(b * (kx + 1) <= b * a) by (nonlinear_arith)
            requires
                kx + 1 <= a,
                b >= 0,
        ;
        assert(a * (b + 1) == a * b + a) by (nonlinear_arith);
        assert(2 * err > a);
    }
    assert(a * (ky + 1 + 1) == a * (ky + 1) + a) by (nonlinear_arith);
    assert(b * (kx + 1 + 1) == b * (kx + 1) + b) by (nonlinear_arith);
}

/// Draws the line from `(x0, y0)` to `(x1, y1)` with Bresenham's walk:
/// its points from the start up to the first time it reaches the end,
/// points off the canvas left out.
pub fn draw_line(canvas: &mut Image, x0: i32, y0: i32, x1: i32, y1: i32, color: Color)
    requires
        old(canvas).wf(),
        -0x4000_0000 <= x0 <= 0x4000_0000,
        -0x4000_0000 <= y0 <= 0x4000_0000,
        -0x4000_0000 <= x1 <= 0x4000_0000,
        -0x4000_0000 <= y1 <= 0x4000_0000,
    ensures
        exists|n: nat|
            line_at_end(x0 as int, y0 as int, x1 as int, y1 as int, n) && (forall|j: nat|
                j < n ==> !#[trigger] line_at_end(x0 as int, y0 as int, x1 as int, y1 as int, j)) && painted(
                *old(canvas),
                *final(canvas),
                color.bytes(),
                |px: int, py: int| point_count(line_points(x0 as int, y0 as int, x1 as int, y1 as int, n + 1), px, py),
            ),
{
    let ghost start = *canvas;
    let ghost (ga, gb, gsx, gsy) = line_setup(x0 as int, y0 as int, x1 as int, y1 as int);
    let pixel: [u8; 4] = [color.r, color.g, color.b, color.a];
    assert(pixel@ =~= color.bytes());
    let (x0, y0, x1, y1) = (x0 as i64, y0 as i64, x1 as i64, y1 as i64);
    let a: i64 = if x1 >= x0 { x1 - x0 } else { x0 - x1 };
    let b: i64 = if y1 >= y0 { y1 - y0 } else { y0 - y1 };
    let sx: i64 = if x0 < x1 { 1 } else { -1 };
    let sy: i64 = if y0 < y1 { 1 } else { -1 };
    let mut err: i64 = a - b;
    let mut x = x0;
    let mut y = y0;
    let ghost mut k: nat = 0;
    let ghost mut kx: int = 0;
    let ghost mut ky: int = 0;
    proof {
        lemma_painted_none(start, pixel@);
    }
    let ghost mid0 = *canvas;
    plot_point(canvas, x, y, &pixel);
    proof {
        let pts = line_points(x0 as int, y0 as int, x1 as int, y1 as int, 1);
        assert(pts =~= seq![(x0 as int, y0 as int)]);
        assert(pts.drop_last() =~= Seq::<(int, int)>::empty());
        assert forall|px: int, py: int| start.in_bounds(px, py) implies #[trigger] point_count(pts, px, py) == (if px == x && py == y { 1nat } else { 0nat }) by {
            assert(point_count(pts.drop_last(), px, py) == 0);
            assert(pts.last() == (x0 as int, y0 as int));
        }
        lemma_painted_same_hits(start, *canvas, pixel@, |px: int, py: int| if px == x && py == y { 1nat } else { 0nat }, |px: int, py: int| point_count(pts, px, py));
    }
    while !(x == x1 && y == y1)
        invariant
            start.wf(),
            (ga, gb, gsx, gsy) == line_setup(x0 as int, y0 as int, x1 as int, y1 as int),
            a == ga,
            b == gb,
            sx == gsx,
            sy == gsy,
            -0x4000_0000 <= x0 <= 0x4000_0000,
            -0x4000_0000 <= y0 <= 0x4000_0000,
            -0x4000_0000 <= x1 <= 0x4000_0000,
            -0x4000_0000 <= y1 <= 0x4000_0000,
            0 <= kx <= a,
            0 <= ky <= b,
            x == x0 + sx * kx,
            y == y0 + sy * ky,
            err == a * (ky + 1) - b * (kx + 1),
            -3 * b <= 2 * err <= 3 * a,
            line_state(x0 as int, y0 as int, x1 as int, y1 as int, k) == (x as int, y as int, err as int),
            forall|j: nat| j < k ==> !#[trigger] line_at_end(x0 as int, y0 as int, x1 as int, y1 as int, j),
            painted(start, *canvas, pixel@, |px: int, py: int| point_count(line_points(x0 as int, y0 as int, x1 as int, y1 as int, k + 1), px, py)),
        decreases (a - kx) + (b - ky),
    {
        proof {
            assert(!(kx == a && ky == b)) by {
                if kx == a && ky == b {
                    assert(x == x1 && y == y1);
                }
            }
            lemma_line_progress(a as int, b as int, kx, ky, err as int);
        }
        let e2 = 2 * err;
        if e2 >= -b {
            err = err - b;
            x = x + sx;
            proof {
                kx = kx + 1;
            }
        }
        if e2 <= a {
            err = err + a;
            y = y + sy;
            proof {
                ky = ky + 1;
            }
        }
        proof {
            assert(!line_at_end(x0 as int, y0 as int, x1 as int, y1 as int, k));
            k = k + 1;
        }
        let ghost mid = *canvas;
        plot_point(canvas, x, y, &pixel);
        proof {
            let old_pts = line_points(x0 as int, y0 as int, x1 as int, y1 as int, k);
            let pts = line_points(x0 as int, y0 as int, x1 as int, y1 as int, k + 1);
            assert(line_state(x0 as int, y0 as int, x1 as int, y1 as int, k) == (x as int, y as int, err as int));
            assert(pts.drop_last() =~= old_pts);
            assert(pts.last() == (x as int, y as int));
            let h1 = |px: int, py: int| point_count(old_pts, px, py);
            let h2 = |px: int, py: int| if px == x && py == y { 1nat } else { 0nat };
            lemma_painted_compose(start, mid, *canvas, pixel@, h1, h2);
            lemma_painted_same_hits(start, *canvas, pixel@, |px: int, py: int| h1(px, py) + h2(px, py), |px: int, py: int| point_count(pts, px, py));
        }
    }
    proof {
        assert(line_at_end(x0 as int, y0 as int, x1 as int, y1 as int, k));
    }
}

} // verus!
