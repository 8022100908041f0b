//! Text recognition on binarised screens: ink projections find text lines
//! and character cells, and each cell is matched against glyph templates.

use vstd::prelude::*;
use vstd::string::StringExecFns;
use crate::image::{Image, threshold};
use crate::render::CharacterBitmap;

verus! {

/// Where ink is: a predicate on pixel coordinates.
pub type InkMap = spec_fn(int, int) -> bool;

/// The ink of a one-channel binary image: its non-zero pixels.
pub open spec fn bin_ink(b: &Image) -> InkMap {
    |x: int, y: int| 0 <= x < b.width && 0 <= y < b.height && b.data@[y * b.width + x] > 0
}

/// The ink of any image: pixels whose gray level is above 128.
pub open spec fn image_ink(img: &Image) -> InkMap {
    |x: int, y: int|
        0 <= x < img.width && 0 <= y < img.height && crate::image::gray_value(
            img.pixel_at(y * img.width + x),
            img.channels as int,
        ) > 128
}

/// The inked pixels of row `y` among the columns before `n`.
pub open spec fn row_count(ink: InkMap, y: int, n: int) -> nat
    decreases n,
{
    if n <= 0 {
        0
    } else {
        row_count(ink, y, n - 1) + if ink(n - 1, y) {
            1nat
        } else {
            0nat
        }
    }
}

/// The inked pixels of column `x` among the `n` rows from `y0`.
pub open spec fn col_count(ink: InkMap, x: int, y0: int, n: int) -> nat
    decreases n,
{
    if n <= 0 {
        0
    } else {
        col_count(ink, x, y0, n - 1) + if ink(x, y0 + n - 1) {
            1nat
        } else {
            0nat
        }
    }
}

proof fn lemma_row_count_bound(ink: InkMap, y: int, n: int)
    ensures
        row_count(ink, y, n) <= if n < 0 { 0 } else { n },
    decreases n,
{
    if n > 0 {
        lemma_row_count_bound(ink, y, n - 1);
    }
}

proof fn lemma_col_count_bound(ink: InkMap, x: int, y0: int, n: int)
    ensures
        col_count(ink, x, y0, n) <= if n < 0 { 0 } else { n },
    decreases n,
{
    if n > 0 {
        lemma_col_count_bound(ink, x, y0, n - 1);
    }
}

/// A one-channel image whose buffer matches its size.
pub open spec fn is_binary_image(b: &Image) -> bool {
    b.wf() && b.channels == 1
}

proof fn lemma_index_in_bounds(b: &Image, x: int, y: int)
    requires
        is_binary_image(b),
        0 <= x < b.width,
        0 <= y < b.height,
    ensures
        0 <= y * b.width + x < b.data@.len(),
{
    crate::image::lemma_pixel_number(b.width as int, b.height as int, x, y);
}

/// Whether pixel `(x, y)` of a binary image carries ink.
fn has_ink(b: &Image, x: usize, y: usize) -> (r: bool)
    requires
        is_binary_image(b),
        x < b.width,
        y < b.height,
    ensures
        r == bin_ink(b)(x as int, y as int),
{
    proof {
        lemma_index_in_bounds(b, x as int, y as int);
    }
    b.data[y * b.width + x] > 0
}

/// For each row, how many of its pixels carry ink.
pub fn horizontal_projection(b: &Image) -> (p: Vec<usize>)
    requires
        is_binary_image(b),
    ensures
        p.len() == b.height,
        forall|y: int| 0 <= y < b.height ==> #[trigger] p@[y] == row_count(bin_ink(b), y, b.width as int),
{
    let mut p: Vec<usize> = Vec::new();
    let mut y: usize = 0;
    while y < b.height
        invariant
            is_binary_image(b),
            y <= b.height,
            p.len() == y,
            forall|q: int| 0 <= q < y ==> #[trigger] p@[q] == row_count(bin_ink(b), q, b.width as int),
        decreases b.height - y,
    {
        let mut count: usize = 0;
        let mut x: usize = 0;
        while x < b.width
            invariant
                is_binary_image(b),
                y < b.height,
                x <= b.width,
                count == row_count(bin_ink(b), y as int, x as int),
            decreases b.width - x,
        {
            proof {
                lemma_row_count_bound(bin_ink(b), y as int, x as int);
            }
            if has_ink(b, x, y) {
                count = count + 1;
            }
            x = x + 1;
        }
        p.push(count);
        y = y + 1;
    }
    p
}

/// How many of the `n` pixels of column `x` from row `y0` carry ink.
pub fn column_ink(b: &Image, x: usize, y0: usize, n: usize) -> (c: usize)
    requires
        is_binary_image(b),
        x < b.width,
        y0 + n <= b.height,
    ensures
        c == col_count(bin_ink(b), x as int, y0 as int, n as int),
{
    let mut count: usize = 0;
    let mut k: usize = 0;
    while k < n
        invariant
            is_binary_image(b),
            x < b.width,
            y0 + n <= b.height,
            k <= n,
            count == col_count(bin_ink(b), x as int, y0 as int, k as int),
        decreases n - k,
    {
        proof {
            lemma_col_count_bound(bin_ink(b), x as int, y0 as int, k as int);
        }
        if has_ink(b, x, y0 + k) {
            count = count + 1;
        }
        k = k + 1;
    }
    count
}

/// For each column, how many of its pixels carry ink.
pub fn vertical_projection(b: &Image) -> (p: Vec<usize>)
    requires
        is_binary_image(b),
    ensures
        p.len() == b.width,
        forall|x: int| 0 <= x < b.width ==> #[trigger] p@[x] == col_count(bin_ink(b), x, 0, b.height as int),
{
    let mut p: Vec<usize> = Vec::new();
    let mut x: usize = 0;
    while x < b.width
        invariant
            is_binary_image(b),
            x <= b.width,
            p.len() == x,
            forall|q: int| 0 <= q < x ==> #[trigger] p@[q] == col_count(bin_ink(b), q, 0, b.height as int),
        decreases b.width - x,
    {
        let c = column_ink(b, x, 0, b.height);
        p.push(c);
        x = x + 1;
    }
    p
}

/// The maximal runs of `true` in `f`, as `[start, end)` pairs in order.
pub open spec fn runs(f: Seq<bool>) -> Seq<(int, int)>
    decreases f.len(),
{
    if f.len() == 0 {
        Seq::empty()
    } else {
        let r = runs(f.drop_last());
        let i = f.len() - 1;
        if !f[i] {
            r
        } else if i > 0 && f[i - 1] {
            r.update(r.len() - 1, (r.last().0, i + 1))
        } else {
            r.push((i, i + 1))
        }
    }
}

/// The runs of `rs` whose length lies in `[lo, hi]`, in order.
pub open spec fn runs_within(rs: Seq<(int, int)>, lo: int, hi: int) -> Seq<(int, int)>
    decreases rs.len(),
{
    if rs.len() == 0 {
        rs
    } else {
        let r = runs_within(rs.drop_last(), lo, hi);
        let last = rs.last();
        if lo <= last.1 - last.0 <= hi {
            r.push(last)
        } else {
            r
        }
    }
}

/// The runs of `f` whose length lies in `[lo, hi]`, found by one scan.
pub fn find_runs(flags: &Vec<bool>, lo: usize, hi: usize) -> (r: Vec<(usize, usize)>)
    ensures
        r@.map_values(|p: (usize, usize)| (p.0 as int, p.1 as int)) == runs_within(runs(flags@), lo as int, hi as int),
        forall|k: int| 0 <= k < r@.len() ==> (#[trigger] r@[k]).0 < r@[k].1 <= flags@.len(),
{
    let n = flags.len();
    let mut out: Vec<(usize, usize)> = Vec::new();
    let mut in_run = false;
    let mut start: usize = 0;
    let mut i: usize = 0;
    let ghost mut closed: Seq<(int, int)> = Seq::empty();
    assert(flags@.take(0) =~= Seq::<bool>::empty());
    while i < n
        invariant
            n == flags.len(),
            i <= n,
            start <= i,
            in_run ==> start < i,
            in_run == (i > 0 && flags@[i - 1]),
            runs(flags@.take(i as int)) == closed + if in_run {
                seq![(start as int, i as int)]
            } else {
                Seq::<(int, int)>::empty()
            },
            out@.map_values(|p: (usize, usize)| (p.0 as int, p.1 as int)) == runs_within(closed, lo as int, hi as int),
            forall|k: int| 0 <= k < out@.len() ==> (#[trigger] out@[k]).0 < out@[k].1 <= i,
        decreases n - i,
    {
        let ghost pre = flags@.take(i as int);
        assert(flags@.take(i + 1).drop_last() =~= pre);
        assert(flags@.take(i + 1).last() == flags@[i as int]);
        if flags[i] {
            if !in_run {
                start = i;
                in_run = true;
                assert(runs(flags@.take(i + 1)) =~= closed + seq![(start as int, i + 1)]);
            } else {
                assert(runs(flags@.take(i + 1)) =~= closed + seq![(start as int, i + 1)]);
            }
        } else {
            if in_run {
                let len = i - start;
                proof {
                    let c2 = closed.push((start as int, i as int));
                    assert(c2.drop_last() =~= closed);
                }
                if lo <= len && len <= hi {
                    out.push((start, i));
                    assert(out@.map_values(|p: (usize, usize)| (p.0 as int, p.1 as int)) =~= runs_within(closed, lo as int, hi as int).push((start as int, i as int)));
                }
                proof {
                    closed = closed.push((start as int, i as int));
                }
                in_run = false;
            }
            assert(runs(flags@.take(i + 1)) =~= closed + Seq::<(int, int)>::empty());
        }
        i = i + 1;
    }
    if in_run {
        let len = n - start;
        proof {
            let c2 = closed.push((start as int, n as int));
            assert(c2.drop_last() =~= closed);
        }
        if lo <= len && len <= hi {
            out.push((start, n));
            assert(out@.map_values(|p: (usize, usize)| (p.0 as int, p.1 as int)) =~= runs_within(closed, lo as int, hi as int).push((start as int, n as int)));
        }
        proof {
            closed = closed.push((start as int, n as int));
        }
    }
    assert(flags@.take(n as int) =~= flags@);
    assert(runs(flags@) =~= closed);
    out
}

/// Column `x` has ink among rows `[s, e)`.
pub open spec fn col_has_ink(ink: InkMap, x: int, s: int, e: int) -> bool {
    col_count(ink, x, s, e - s) > 0
}

/// `x` is the leftmost column of `[0, w)` with ink among rows `[s, e)`.
pub open spec fn is_leftmost(ink: InkMap, w: int, s: int, e: int, x: int) -> bool {
    &&& 0 <= x < w
    &&& col_has_ink(ink, x, s, e)
    &&& forall|z: int| 0 <= z < x ==> !#[trigger] col_has_ink(ink, z, s, e)
}

/// `x` is the rightmost column of `[0, w)` with ink among rows `[s, e)`.
pub open spec fn is_rightmost(ink: InkMap, w: int, s: int, e: int, x: int) -> bool {
    &&& 0 <= x < w
    &&& col_has_ink(ink, x, s, e)
    &&& forall|z: int| x < z < w ==> !#[trigger] col_has_ink(ink, z, s, e)
}

/// The box of the text line on rows `[s, e)`: from the leftmost to the
/// rightmost inked column (that column itself left out), as
/// `(x, y, width, height)`; none when those columns coincide or no column
/// has ink.
pub open spec fn line_box(ink: InkMap, w: int, s: int, e: int) -> Option<(int, int, int, int)> {
    if exists|x: int| is_leftmost(ink, w, s, e, x) {
        let lo = choose|x: int| is_leftmost(ink, w, s, e, x);
        let hi = choose|x: int| is_rightmost(ink, w, s, e, x);
        if lo < hi {
            Some((lo, s, hi - lo, e - s))
        } else {
            None
        }
    } else {
        None
    }
}

/// The boxes of the row runs `rs` that have one, in order.
pub open spec fn boxes(ink: InkMap, w: int, rs: Seq<(int, int)>) -> Seq<(int, int, int, int)>
    decreases rs.len(),
{
    if rs.len() == 0 {
        Seq::empty()
    } else {
        let r = boxes(ink, w, rs.drop_last());
        match line_box(ink, w, rs.last().0, rs.last().1) {
            Some(bx) => r.push(bx),
            None => r,
        }
    }
}

/// Which rows count as text: more than a twentieth of their pixels inked.
pub open spec fn line_flags(ink: InkMap, w: int, h: int) -> Seq<bool> {
    Seq::new(h as nat, |y: int| row_count(ink, y, w) > w / 20)
}

/// The text lines: runs of text rows 8 to 80 rows tall, boxed.
pub open spec fn text_lines(ink: InkMap, w: int, h: int) -> Seq<(int, int, int, int)> {
    boxes(ink, w, runs_within(runs(line_flags(ink, w, h)), 8, 80))
}

/// The box of the text line on rows `[s, e)` of `b`.
pub fn line_bounds(b: &Image, s: usize, e: usize) -> (r: Option<(usize, usize, usize, usize)>)
    requires
        is_binary_image(b),
        s <= e <= b.height,
    ensures
        match r {
            Some(bx) => line_box(bin_ink(b), b.width as int, s as int, e as int) == Some(
                (bx.0 as int, bx.1 as int, bx.2 as int, bx.3 as int),
            ),
            None => line_box(bin_ink(b), b.width as int, s as int, e as int) is None,
        },
        r matches Some(bx) ==> bx.0 + bx.2 <= b.width && bx.1 + bx.3 <= b.height && bx.2 > 0 && bx.1 == s && bx.3 == e - s,
{
    let ghost ink = bin_ink(b);
    let ghost w = b.width as int;
    let mut lo: usize = 0;
    while lo < b.width && column_ink(b, lo, s, e - s) == 0
        invariant
            is_binary_image(b),
            s <= e <= b.height,
            ink == bin_ink(b),
            w == b.width,
            lo <= b.width,
            forall|z: int| 0 <= z < lo ==> !#[trigger] col_has_ink(ink, z, s as int, e as int),
        decreases b.width - lo,
    {
        lo = lo + 1;
    }
    if lo == b.width {
        assert(!exists|x: int| is_leftmost(ink, w, s as int, e as int, x));
        return None;
    }
    assert(is_leftmost(ink, w, s as int, e as int, lo as int));
    let mut hi: usize = b.width - 1;
    while hi > lo && column_ink(b, hi, s, e - s) == 0
        invariant
            is_binary_image(b),
            s <= e <= b.height,
            ink == bin_ink(b),
            w == b.width,
            lo <= hi < b.width,
            col_has_ink(ink, lo as int, s as int, e as int),
            forall|z: int| hi < z < w ==> !#[trigger] col_has_ink(ink, z, s as int, e as int),
        decreases hi - lo,
    {
        hi = hi - 1;
    }
    assert(is_rightmost(ink, w, s as int, e as int, hi as int));
    proof {
        let l = choose|x: int| is_leftmost(ink, w, s as int, e as int, x);
        assert(is_leftmost(ink, w, s as int, e as int, l));
        if l < lo {
            assert(!col_has_ink(ink, l, s as int, e as int));
        }
        if lo < l {
            assert(!col_has_ink(ink, lo as int, s as int, e as int));
        }
        let r = choose|x: int| is_rightmost(ink, w, s as int, e as int, x);
        assert(is_rightmost(ink, w, s as int, e as int, r));
        if r < hi {
            assert(!col_has_ink(ink, hi as int, s as int, e as int));
        }
        if hi < r {
            assert(!col_has_ink(ink, r, s as int, e as int));
        }
    }
    if lo < hi {
        Some((lo, s, hi - lo, e - s))
    } else {
        None
    }
}

/// The text lines of the binary image `b`.
pub fn find_text_lines(b: &Image) -> (lines: Vec<(usize, usize, usize, usize)>)
    requires
        is_binary_image(b),
    ensures
        lines@.map_values(|l: (usize, usize, usize, usize)| (l.0 as int, l.1 as int, l.2 as int, l.3 as int))
            == text_lines(bin_ink(b), b.width as int, b.height as int),
        forall|k: int|
            0 <= k < lines@.len() ==> (#[trigger] lines@[k]).0 + lines@[k].2 <= b.width && lines@[k].1
                + lines@[k].3 <= b.height && lines@[k].2 > 0 && lines@[k].3 > 0,
{
    let ghost ink = bin_ink(b);
    let proj = horizontal_projection(b);
    let mut flags: Vec<bool> = Vec::new();
    let mut y: usize = 0;
    let limit = b.width / 20;
    while y < b.height
        invariant
            y <= b.height,
            proj.len() == b.height,
            limit == b.width / 20,
            flags@.len() == y,
            forall|q: int| 0 <= q < y ==> #[trigger] flags@[q] == line_flags(ink, b.width as int, b.height as int)[q],
            forall|q: int| 0 <= q < b.height ==> #[trigger] proj@[q] == row_count(bin_ink(b), q, b.width as int),
            ink == bin_ink(b),
        decreases b.height - y,
    {
        flags.push(proj[y] > limit);
        y = y + 1;
    }
    assert(flags@ =~= line_flags(ink, b.width as int, b.height as int));
    let rs = find_runs(&flags, 8, 80);
    let ghost all = runs_within(runs(flags@), 8, 80);
    let mut lines: Vec<(usize, usize, usize, usize)> = Vec::new();
    let mut k: usize = 0;
    while k < rs.len()
        invariant
            is_binary_image(b),
            ink == bin_ink(b),
            k <= rs.len(),
            flags@.len() == b.height,
            all == rs@.map_values(|p: (usize, usize)| (p.0 as int, p.1 as int)),
            forall|j: int| 0 <= j < rs@.len() ==> (#[trigger] rs@[j]).0 < rs@[j].1 <= flags@.len(),
            lines@.map_values(|l: (usize, usize, usize, usize)| (l.0 as int, l.1 as int, l.2 as int, l.3 as int))
                == boxes(ink, b.width as int, all.take(k as int)),
            forall|j: int|
                0 <= j < lines@.len() ==> (#[trigger] lines@[j]).0 + lines@[j].2 <= b.width && lines@[j].1
                    + lines@[j].3 <= b.height && lines@[j].2 > 0 && lines@[j].3 > 0,
        decreases rs.len() - k,
    {
        let (s, e) = rs[k];
        assert(all.take(k + 1).drop_last() =~= all.take(k as int));
        assert(all.take(k + 1).last() == (s as int, e as int));
        match line_bounds(b, s, e) {
            Some(bx) => {
                lines.push(bx);
                assert(lines@.map_values(|l: (usize, usize, usize, usize)| (l.0 as int, l.1 as int, l.2 as int, l.3 as int))
                    =~= boxes(ink, b.width as int, all.take(k + 1)));
            },
            None => {},
        }
        k = k + 1;
    }
    assert(all.take(rs.len() as int) =~= all);
    lines
}

/// Which columns of the line `line` count as character ink: more than a
/// tenth of their pixels inked.
pub open spec fn cell_flags(ink: InkMap, line: (int, int, int, int)) -> Seq<bool> {
    Seq::new(line.2 as nat, |x: int| col_count(ink, line.0 + x, line.1, line.3) > line.3 / 10)
}

/// The character cells of `line`: runs of character columns 5 to 50 wide,
/// as full-height boxes.
pub open spec fn cells(ink: InkMap, line: (int, int, int, int)) -> Seq<(int, int, int, int)> {
    runs_within(runs(cell_flags(ink, line)), 5, 50).map_values(
        |r: (int, int)| (line.0 + r.0, line.1, r.1 - r.0, line.3),
    )
}

/// The character cells of `line` in the binary image `b`.
pub fn extract_characters(b: &Image, line: (usize, usize, usize, usize)) -> (out: Vec<(usize, usize, usize, usize)>)
    requires
        is_binary_image(b),
        line.0 + line.2 <= b.width,
        line.1 + line.3 <= b.height,
    ensures
        out@.map_values(|c: (usize, usize, usize, usize)| (c.0 as int, c.1 as int, c.2 as int, c.3 as int))
            == cells(bin_ink(b), (line.0 as int, line.1 as int, line.2 as int, line.3 as int)),
        forall|k: int|
            0 <= k < out@.len() ==> (#[trigger] out@[k]).0 + out@[k].2 <= b.width && out@[k].1 + out@[k].3
                <= b.height && 5 <= out@[k].2 <= 50 && out@[k].3 == line.3,
{
    let ghost ink = bin_ink(b);
    let ghost l = (line.0 as int, line.1 as int, line.2 as int, line.3 as int);
    let (lx, ly, lw, lh) = line;
    let limit = lh / 10;
    let mut flags: Vec<bool> = Vec::new();
    let mut x: usize = 0;
    while x < lw
        invariant
            is_binary_image(b),
            ink == bin_ink(b),
            l == (lx as int, ly as int, lw as int, lh as int),
            lx + lw <= b.width,
            ly + lh <= b.height,
            limit == lh / 10,
            x <= lw,
            flags@.len() == x,
            forall|q: int| 0 <= q < x ==> #[trigger] flags@[q] == cell_flags(ink, l)[q],
        decreases lw - x,
    {
        let c = column_ink(b, lx + x, ly, lh);
        flags.push(c > limit);
        x = x + 1;
    }
    assert(flags@ =~= cell_flags(ink, l));
    let rs = find_runs(&flags, 5, 50);
    let ghost kept = runs_within(runs(flags@), 5, 50);
    proof {
        lemma_runs_within_lengths(runs(flags@), 5, 50);
    }
    let mut out: Vec<(usize, usize, usize, usize)> = Vec::new();
    let mut k: usize = 0;
    while k < rs.len()
        invariant
            k <= rs.len(),
            lx + lw <= b.width,
            ly + lh <= b.height,
            flags@.len() == lw,
            l == (lx as int, ly as int, lw as int, lh as int),
            kept == rs@.map_values(|p: (usize, usize)| (p.0 as int, p.1 as int)),
            forall|j: int| 0 <= j < rs@.len() ==> (#[trigger] rs@[j]).0 < rs@[j].1 <= flags@.len(),
            forall|j: int| 0 <= j < kept.len() ==> 5 <= (#[trigger] kept[j]).1 - kept[j].0 <= 50,
            out@.map_values(|c: (usize, usize, usize, usize)| (c.0 as int, c.1 as int, c.2 as int, c.3 as int))
                == kept.take(k as int).map_values(|r: (int, int)| (l.0 + r.0, l.1, r.1 - r.0, l.3)),
            forall|j: int|
                0 <= j < out@.len() ==> (#[trigger] out@[j]).0 + out@[j].2 <= b.width && out@[j].1 + out@[j].3
                    <= b.height && 5 <= out@[j].2 <= 50 && out@[j].3 == lh,
        decreases rs.len() - k,
    {
        let (s, e) = rs[k];
        assert(kept[k as int] == (s as int, e as int));
        let ghost before = out@;
        let cell = (lx + s, ly, e - s, lh);
        out.push(cell);
        proof {
            let f = |r: (int, int)| (l.0 + r.0, l.1, r.1 - r.0, l.3);
            let g = |c: (usize, usize, usize, usize)| (c.0 as int, c.1 as int, c.2 as int, c.3 as int);
            assert(kept.take(k + 1) =~= kept.take(k as int).push(kept[k as int]));
            assert(kept.take(k as int).push(kept[k as int]).map_values(f) =~= kept.take(k as int).map_values(f).push(f(kept[k as int])));
            assert(out@ =~= before.push(cell));
            assert(before.push(cell).map_values(g) =~= before.map_values(g).push(g(cell)));
        }
        assert(out@.map_values(|c: (usize, usize, usize, usize)| (c.0 as int, c.1 as int, c.2 as int, c.3 as int))
            =~= kept.take(k + 1).map_values(|r: (int, int)| (l.0 + r.0, l.1, r.1 - r.0, l.3)));
        k = k + 1;
    }
    assert(kept.take(rs.len() as int) =~= kept);
    out
}

/// Every run kept by `runs_within` has a length in the bounds.
pub proof fn lemma_runs_within_lengths(rs: Seq<(int, int)>, lo: int, hi: int)
    ensures
        forall|j: int|
            0 <= j < runs_within(rs, lo, hi).len() ==> lo <= (#[trigger] runs_within(rs, lo, hi)[j]).1
                - runs_within(rs, lo, hi)[j].0 <= hi,
    decreases rs.len(),
{
    if rs.len() > 0 {
        lemma_runs_within_lengths(rs.drop_last(), lo, hi);
        let r = runs_within(rs.drop_last(), lo, hi);
        assert forall|j: int|
            0 <= j < runs_within(rs, lo, hi).len() implies lo <= (#[trigger] runs_within(rs, lo, hi)[j]).1
            - runs_within(rs, lo, hi)[j].0 <= hi by {
            if j < r.len() {
                assert(runs_within(rs, lo, hi)[j] == r[j]);
            }
        }
    }
}

/// The ink under pattern pixel `(x, y)` when the cell `cell` is scaled to
/// `pw` x `ph` by nearest neighbour.
pub open spec fn sample(ink: InkMap, cell: (int, int, int, int), pw: int, ph: int, x: int, y: int) -> bool {
    ink(cell.0 + x * cell.2 / pw, cell.1 + y * cell.3 / ph)
}

/// How many of the first `k` pixels of `pat`, in row-major order, agree
/// with the scaled cell.
pub open spec fn agreement(ink: InkMap, cell: (int, int, int, int), pat: CharacterBitmap, k: int) -> nat
    decreases k,
{
    if k <= 0 {
        0
    } else {
        let w = pat.width as int;
        let i = k - 1;
        agreement(ink, cell, pat, i) + if sample(ink, cell, w, pat.height as int, i % w, i / w)
            == pat.pixels@[i] {
            1nat
        } else {
            0nat
        }
    }
}

/// How many of the first `k` pixels of `cell`, in row-major order, carry
/// ink.
pub open spec fn cell_ink_count(ink: InkMap, cell: (int, int, int, int), k: int) -> nat
    decreases k,
{
    if k <= 0 {
        0
    } else {
        let i = k - 1;
        cell_ink_count(ink, cell, i) + if ink(cell.0 + i % cell.2, cell.1 + i / cell.2) {
            1nat
        } else {
            0nat
        }
    }
}

proof fn lemma_agreement_bound(ink: InkMap, cell: (int, int, int, int), pat: CharacterBitmap, k: int)
    ensures
        agreement(ink, cell, pat, k) <= if k < 0 { 0 } else { k },
    decreases k,
{
    if k > 0 {
        lemma_agreement_bound(ink, cell, pat, k - 1);
    }
}

proof fn lemma_cell_ink_bound(ink: InkMap, cell: (int, int, int, int), k: int)
    ensures
        cell_ink_count(ink, cell, k) <= if k < 0 { 0 } else { k },
    decreases k,
{
    if k > 0 {
        lemma_cell_ink_bound(ink, cell, k - 1);
    }
}

/// A template the recognizer can use: a consistent, non-empty glyph.
pub open spec fn usable_template(p: CharacterBitmap) -> bool {
    p.wf() && p.width > 0 && p.height > 0
}

/// A cell that lies in a `w` x `h` image and is not empty.
pub open spec fn cell_in(cell: (usize, usize, usize, usize), w: int, h: int) -> bool {
    cell.0 + cell.2 <= w && cell.1 + cell.3 <= h && cell.2 > 0 && cell.3 > 0
}

proof fn lemma_row_major(i: int, w: int, h: int)
    requires
        0 <= i < w * h,
        w > 0,
    ensures
        0 <= i % w < w,
        0 <= i / w < h,
{
    assert(0 <= i / w < h) by (nonlinear_arith)
        requires
            0 <= i < w * h,
            w > 0,
    ;
}

proof fn lemma_scaled_below(x: int, n: int, c: int)
    requires
        0 <= x < n,
        c > 0,
    ensures
        0 <= x * c / n < c,
{
    assert(0 <= x * c / n < c) by (nonlinear_arith)
        requires
            0 <= x < n,
            c > 0,
    ;
}

/// How many pixels of `pat` agree with the cell scaled to its size.
pub fn match_template(b: &Image, cell: (usize, usize, usize, usize), pat: &CharacterBitmap) -> (m: usize)
    requires
        is_binary_image(b),
        usable_template(*pat),
        cell_in(cell, b.width as int, b.height as int),
    ensures
        m == agreement(bin_ink(b), (cell.0 as int, cell.1 as int, cell.2 as int, cell.3 as int), *pat, pat.width * pat.height),
        m <= pat.width * pat.height,
{
    let ghost c = (cell.0 as int, cell.1 as int, cell.2 as int, cell.3 as int);
    let (cx, cy, cw, ch) = cell;
    let pw = pat.width;
    let ph = pat.height;
    let n = pat.pixels.len();
    let mut count: usize = 0;
    let mut i: usize = 0;
    while i < n
        invariant
            is_binary_image(b),
            usable_template(*pat),
            cell_in(cell, b.width as int, b.height as int),
            c == (cx as int, cy as int, cw as int, ch as int),
            (cx, cy, cw, ch) == cell,
            pw == pat.width,
            ph == pat.height,
            n == pat.pixels.len(),
            n == pw * ph,
            i <= n,
            count <= i,
            count == agreement(bin_ink(b), c, *pat, i as int),
        decreases n - i,
    {
        proof {
            lemma_row_major(i as int, pw as int, ph as int);
            lemma_scaled_below((i % pw) as int, pw as int, cw as int);
            lemma_scaled_below((i / pw) as int, ph as int, ch as int);
            lemma_agreement_bound(bin_ink(b), c, *pat, i as int);
        }
        let x = i % pw;
        let y = i / pw;
        assert((x as u128) * (cw as u128) <= 0xffff_ffff_ffff_ffff * 0xffff_ffff_ffff_ffff && (y as u128) * (ch as u128) <= 0xffff_ffff_ffff_ffff * 0xffff_ffff_ffff_ffff) by (nonlinear_arith)
            requires
                x <= 0xffff_ffff_ffff_ffff,
                y <= 0xffff_ffff_ffff_ffff,
                cw <= 0xffff_ffff_ffff_ffff,
                ch <= 0xffff_ffff_ffff_ffff,
        ;
        let sx = cx + ((x as u128 * cw as u128) / pw as u128) as usize;
        let sy = cy + ((y as u128 * ch as u128) / ph as u128) as usize;
        if has_ink(b, sx, sy) == pat.pixels[i] {
            count = count + 1;
        }
        i = i + 1;
    }
    count
}

/// How many pixels of the cell carry ink.
pub fn cell_ink(b: &Image, cell: (usize, usize, usize, usize)) -> (k: usize)
    requires
        is_binary_image(b),
        cell_in(cell, b.width as int, b.height as int),
    ensures
        k == cell_ink_count(bin_ink(b), (cell.0 as int, cell.1 as int, cell.2 as int, cell.3 as int), cell.2 * cell.3),
        k <= cell.2 * cell.3,
{
    let ghost c = (cell.0 as int, cell.1 as int, cell.2 as int, cell.3 as int);
    let (cx, cy, cw, ch) = cell;
    assert(cw * ch <= b.width * b.height) by (nonlinear_arith)
        requires
            cx + cw <= b.width,
            cy + ch <= b.height,
    ;
    assert(b.width * b.height <= usize::MAX) by {
        assert(b.width * b.height * 1 == b.width * b.height);
    }
    let n = cw * ch;
    let mut count: usize = 0;
    let mut i: usize = 0;
    while i < n
        invariant
            is_binary_image(b),
            cell_in(cell, b.width as int, b.height as int),
            c == (cx as int, cy as int, cw as int, ch as int),
            (cx, cy, cw, ch) == cell,
            n == cw * ch,
            i <= n,
            count <= i,
            count == cell_ink_count(bin_ink(b), c, i as int),
        decreases n - i,
    {
        proof {
            lemma_row_major(i as int, cw as int, ch as int);
            lemma_cell_ink_bound(bin_ink(b), c, i as int);
        }
        if has_ink(b, cx + i % cw, cy + i / cw) {
            count = count + 1;
        }
        i = i + 1;
    }
    count
}

/// The best-agreeing template among `ts` for the cell, as (character,
/// agreeing pixels, template pixels): a template replaces the best so far
/// only with a strictly larger share of agreeing pixels; before any, a
/// space with no agreement.
pub open spec fn best_template(ink: InkMap, cell: (int, int, int, int), ts: Seq<(char, CharacterBitmap)>) -> (char, int, int)
    decreases ts.len(),
{
    if ts.len() == 0 {
        (' ', 0, 1)
    } else {
        let prev = best_template(ink, cell, ts.drop_last());
        let p = ts.last().1;
        let t2 = (p.width * p.height) as int;
        let m2 = agreement(ink, cell, p, t2) as int;
        if m2 * prev.2 > prev.1 * t2 {
            (ts.last().0, m2, t2)
        } else {
            prev
        }
    }
}

/// The character guessed from a cell's shape when no template agrees
/// well: from its width `w`, height `h` and `k` inked pixels.
pub open spec fn guess_character(w: int, h: int, k: int) -> char {
    let t = w * h;
    if 10 * w < 3 * h {
        if 10 * k > 7 * t {
            'l'
        } else {
            'i'
        }
    } else if 2 * w > 3 * h {
        if 10 * k > 4 * t {
            'm'
        } else {
            '-'
        }
    } else if 10 * k < 2 * t {
        '.'
    } else if 10 * k > 6 * t {
        'O'
    } else {
        'a'
    }
}

/// The character read from a cell: the best template's, unless fewer than
/// three in ten of its pixels agree, when it is guessed from the shape.
pub open spec fn char_of(ink: InkMap, cell: (int, int, int, int), ts: Seq<(char, CharacterBitmap)>) -> char {
    let best = best_template(ink, cell, ts);
    if 10 * best.1 < 3 * best.2 {
        guess_character(cell.2, cell.3, cell_ink_count(ink, cell, cell.2 * cell.3) as int)
    } else {
        best.0
    }
}

/// The text read from a line: one character per cell.
pub open spec fn line_text(ink: InkMap, line: (int, int, int, int), ts: Seq<(char, CharacterBitmap)>) -> Seq<char> {
    cells(ink, line).map_values(|c: (int, int, int, int)| char_of(ink, c, ts))
}

/// The lines of `lines` from which some text is read, with that text.
pub open spec fn regions_of(ink: InkMap, lines: Seq<(int, int, int, int)>, ts: Seq<(char, CharacterBitmap)>) -> Seq<((int, int, int, int), Seq<char>)>
    decreases lines.len(),
{
    if lines.len() == 0 {
        Seq::empty()
    } else {
        let r = regions_of(ink, lines.drop_last(), ts);
        let t = line_text(ink, lines.last(), ts);
        if t.len() > 0 {
            r.push((lines.last(), t))
        } else {
            r
        }
    }
}

/// The texts of `rs` joined with single spaces.
pub open spec fn joined_texts(rs: Seq<Seq<char>>) -> Seq<char>
    decreases rs.len(),
{
    if rs.len() == 0 {
        Seq::empty()
    } else if rs.len() == 1 {
        rs[0]
    } else {
        joined_texts(rs.drop_last()) + seq![' '] + rs.last()
    }
}

/// Text read from a line of the screen.
#[derive(Debug, Clone)]
pub struct TextRegion {
    pub x: usize,
    pub y: usize,
    pub width: usize,
    pub height: usize,
    pub text: String,
    pub font_size: usize,
}

/// Why text recognition failed.
#[derive(Debug)]
pub enum TextRecognitionError {
    ImageProcessingError(String),
    TemplateError(String),
    RecognitionError(String),
}

/// Reads text by matching character cells against glyph templates.
pub struct TextRecognizer {
    character_templates: Vec<(char, CharacterBitmap)>,
}

impl TextRecognizer {
    /// The templates, in the order they are tried.
    pub closed spec fn templates(self) -> Seq<(char, CharacterBitmap)> {
        self.character_templates@
    }

    /// Every template is usable.
    pub closed spec fn wf(self) -> bool {
        forall|i: int| 0 <= i < self.templates().len() ==> usable_template(#[trigger] self.templates()[i].1)
    }

    /// A recognizer with templates for `A` and `O`.
    pub fn new() -> (r: Self)
        ensures
            r.wf(),
            standard_templates(r.templates()),
    {
        let a_rows: [u8; 12] = [0x3c, 0x42, 0x42, 0x42, 0x7e, 0x42, 0x42, 0x42, 0x42, 0x42, 0x00, 0x00];
        let o_rows: [u8; 12] = [0x3c, 0x42, 0x42, 0x42, 0x42, 0x42, 0x42, 0x42, 0x42, 0x3c, 0x00, 0x00];
        assert(a_rows@ =~= seq![0x3cu8, 0x42, 0x42, 0x42, 0x7e, 0x42, 0x42, 0x42, 0x42, 0x42, 0x00, 0x00]);
        assert(o_rows@ =~= rows_o());
        let mut t: Vec<(char, CharacterBitmap)> = Vec::new();
        t.push(('A', crate::render::bitmap_from_rows(&a_rows)));
        t.push(('O', crate::render::bitmap_from_rows(&o_rows)));
        TextRecognizer { character_templates: t }
    }

    /// How many templates the recognizer holds.
    pub fn template_count(&self) -> (n: usize)
        ensures
            n == self.templates().len(),
    {
        self.character_templates.len()
    }

    /// The first template for `character`, if there is one.
    pub fn template_for(&self, character: char) -> (t: Option<&CharacterBitmap>)
        ensures
            match t {
                Some(p) => exists|i: int|
                    0 <= i < self.templates().len() && #[trigger] self.templates()[i] == (character, *p)
                        && forall|j: int| 0 <= j < i ==> (#[trigger] self.templates()[j]).0 != character,
                None => forall|i: int| 0 <= i < self.templates().len() ==> (#[trigger] self.templates()[i]).0 != character,
            },
    {
        let mut k: usize = 0;
        while k < self.character_templates.len()
            invariant
                k <= self.templates().len(),
                forall|j: int| 0 <= j < k ==> (#[trigger] self.templates()[j]).0 != character,
            decreases self.templates().len() - k,
        {
            if self.character_templates[k].0 == character {
                return Some(&self.character_templates[k].1);
            }
            k = k + 1;
        }
        None
    }

    /// Adds a template for `character`, tried after the others.
    pub fn add_character_template(&mut self, character: char, pattern: CharacterBitmap)
        requires
            old(self).wf(),
            usable_template(pattern),
        ensures
            final(self).wf(),
            final(self).templates() == old(self).templates().push((character, pattern)),
    {
        self.character_templates.push((character, pattern));
    }

    /// The character read from `cell` of the binary image `b`.
    pub fn recognize_character(&self, b: &Image, cell: (usize, usize, usize, usize)) -> (c: char)
        requires
            self.wf(),
            is_binary_image(b),
            cell_in(cell, b.width as int, b.height as int),
        ensures
            c == char_of(bin_ink(b), (cell.0 as int, cell.1 as int, cell.2 as int, cell.3 as int), self.templates()),
    {
        let ghost ci = (cell.0 as int, cell.1 as int, cell.2 as int, cell.3 as int);
        let ghost ts = self.templates();
        let mut best_char = ' ';
        let mut best_m: u128 = 0;
        let mut best_t: u128 = 1;
        let mut k: usize = 0;
        while k < self.character_templates.len()
            invariant
                self.wf(),
                ts == self.templates(),
                is_binary_image(b),
                cell_in(cell, b.width as int, b.height as int),
                ci == (cell.0 as int, cell.1 as int, cell.2 as int, cell.3 as int),
                k <= ts.len(),
                best_template(bin_ink(b), ci, ts.take(k as int)) == (best_char, best_m as int, best_t as int),
                best_m <= best_t,
                1 <= best_t <= usize::MAX,
            decreases ts.len() - k,
        {
            let pat = &self.character_templates[k].1;
            let m = match_template(b, cell, pat);
            let t = pat.pixels.len();
            assert(usable_template(ts[k as int].1));
            assert(pat.width * pat.height >= 1) by (nonlinear_arith)
                requires
                    pat.width > 0,
                    pat.height > 0,
            ;
            assert(ts.take(k + 1).drop_last() =~= ts.take(k as int));
            assert(ts.take(k + 1).last() == ts[k as int]);
            assert((m as u128) * best_t <= 0xffff_ffff_ffff_ffff * 0xffff_ffff_ffff_ffff && best_m * (t as u128) <= 0xffff_ffff_ffff_ffff * 0xffff_ffff_ffff_ffff) by (nonlinear_arith)
                requires
                    m <= 0xffff_ffff_ffff_ffff,
                    best_t <= 0xffff_ffff_ffff_ffff,
                    best_m <= 0xffff_ffff_ffff_ffff,
                    t <= 0xffff_ffff_ffff_ffff,
            ;
            if (m as u128) * best_t > best_m * (t as u128) {
                best_char = self.character_templates[k].0;
                best_m = m as u128;
                best_t = t as u128;
            }
            k = k + 1;
        }
        assert(ts.take(ts.len() as int) =~= ts);
        if best_m * 10 < 3 * best_t {
            let (cx, cy, cw, ch) = cell;
            let ink_count = cell_ink(b, cell);
            assert(cw * ch <= b.width * b.height) by (nonlinear_arith)
                requires
                    cx + cw <= b.width,
                    cy + ch <= b.height,
            ;
            assert(b.width * b.height <= usize::MAX) by {
                assert(b.width * b.height * 1 == b.width * b.height);
            }
            let area = cw * ch;
            let t = area as u128;
            let k = ink_count as u128;
            let w = cw as u128;
            let h = ch as u128;
            if 10 * w < 3 * h {
                if 10 * k > 7 * t {
                    'l'
                } else {
                    'i'
                }
            } else if 2 * w > 3 * h {
                if 10 * k > 4 * t {
                    'm'
                } else {
                    '-'
                }
            } else if 10 * k < 2 * t {
                '.'
            } else if 10 * k > 6 * t {
                'O'
            } else {
                'a'
            }
        } else {
            best_char
        }
    }
}

/// The 8 x 12 rows of the `O` template.
pub open spec fn rows_o() -> Seq<u8> {
    seq![0x3cu8, 0x42, 0x42, 0x42, 0x42, 0x42, 0x42, 0x42, 0x42, 0x3c, 0x00, 0x00]
}

/// The templates a new recognizer starts with: `A`, then `O`, each an
/// 8 x 12 glyph.
pub open spec fn standard_templates(ts: Seq<(char, CharacterBitmap)>) -> bool {
    &&& ts.len() == 2
    &&& ts[0].0 == 'A'
    &&& ts[1].0 == 'O'
    &&& ts[0].1.width == 8 && ts[0].1.height == 12
    &&& ts[1].1.width == 8 && ts[1].1.height == 12
    &&& ts[0].1.pixels@ == crate::render::glyph_pixels(seq![0x3cu8, 0x42, 0x42, 0x42, 0x7e, 0x42, 0x42, 0x42, 0x42, 0x42, 0x00, 0x00])
    &&& ts[1].1.pixels@ == crate::render::glyph_pixels(rows_o())
}

/// What a text region holds: its box and its text.
pub open spec fn region_view(r: TextRegion) -> ((int, int, int, int), Seq<char>) {
    ((r.x as int, r.y as int, r.width as int, r.height as int), r.text@)
}

/// The text regions of `image` read with the templates `ts`.
pub open spec fn recognized(image: &Image, ts: Seq<(char, CharacterBitmap)>) -> Seq<((int, int, int, int), Seq<char>)> {
    let ink = image_ink(image);
    regions_of(ink, text_lines(ink, image.width as int, image.height as int), ts)
}

/// The texts of the regions of `image` read with `ts`, joined with spaces.
pub open spec fn recognized_text(image: &Image, ts: Seq<(char, CharacterBitmap)>) -> Seq<char> {
    joined_texts(recognized(image, ts).map_values(|t: ((int, int, int, int), Seq<char>)| t.1))
}

/// The ink of an image binarised at 128 is the image's ink.
proof fn lemma_threshold_ink(image: &Image, b: &Image)
    requires
        image.wf(),
        b.wf(),
        b.width == image.width,
        b.height == image.height,
        b.channels == 1,
        forall|k: int|
            0 <= k < image.width * image.height ==> #[trigger] b.data@[k] == (if crate::image::gray_value(
                image.pixel_at(k),
                image.channels as int,
            ) > 128u8 {
                255u8
            } else {
                0u8
            }),
    ensures
        bin_ink(b) == image_ink(image),
{
    assert forall|x: int, y: int| #[trigger] bin_ink(b)(x, y) == image_ink(image)(x, y) by {
        if 0 <= x < image.width && 0 <= y < image.height {
            crate::image::lemma_pixel_number(image.width as int, image.height as int, x, y);
            let k = y * image.width + x;
            assert(b.data@[k] == (if crate::image::gray_value(image.pixel_at(k), image.channels as int) > 128u8 {
                255u8
            } else {
                0u8
            }));
        }
    }
    assert(bin_ink(b) =~= image_ink(image));
}

impl TextRecognizer {
    /// The text regions of `image`: its text lines, each with the
    /// characters read from its cells, leaving out lines without cells.
    pub fn recognize_text(&self, image: &Image) -> (r: Result<Vec<TextRegion>, TextRecognitionError>)
        requires
            self.wf(),
            image.wf(),
        ensures
            r matches Ok(v) && v@.map_values(|t: TextRegion| region_view(t)) == recognized(image, self.templates())
                && forall|k: int| 0 <= k < v@.len() ==> (#[trigger] v@[k]).font_size == v@[k].height,
    {
        let b = threshold(image, 128);
        proof {
            lemma_threshold_ink(image, &b);
        }
        let ghost ink = bin_ink(&b);
        let ghost ts = self.templates();
        let lines = find_text_lines(&b);
        let ghost lv = lines@.map_values(|l: (usize, usize, usize, usize)| (l.0 as int, l.1 as int, l.2 as int, l.3 as int));
        let mut regions: Vec<TextRegion> = Vec::new();
        let mut k: usize = 0;
        while k < lines.len()
            invariant
                self.wf(),
                ts == self.templates(),
                is_binary_image(&b),
                ink == bin_ink(&b),
                k <= lines.len(),
                lv == lines@.map_values(|l: (usize, usize, usize, usize)| (l.0 as int, l.1 as int, l.2 as int, l.3 as int)),
                forall|j: int|
                    0 <= j < lines@.len() ==> (#[trigger] lines@[j]).0 + lines@[j].2 <= b.width && lines@[j].1
                        + lines@[j].3 <= b.height && lines@[j].2 > 0 && lines@[j].3 > 0,
                regions@.map_values(|t: TextRegion| region_view(t)) == regions_of(ink, lv.take(k as int), ts),
                forall|j: int| 0 <= j < regions@.len() ==> (#[trigger] regions@[j]).font_size == regions@[j].height,
            decreases lines.len() - k,
        {
            let line = lines[k];
            let cells_found = extract_characters(&b, line);
            let ghost cv = cells_found@.map_values(|c: (usize, usize, usize, usize)| (c.0 as int, c.1 as int, c.2 as int, c.3 as int));
            let mut text = String::new();
            let mut j: usize = 0;
            while j < cells_found.len()
                invariant
                    self.wf(),
                    ts == self.templates(),
                    is_binary_image(&b),
                    ink == bin_ink(&b),
                    j <= cells_found.len(),
                    cv == cells_found@.map_values(|c: (usize, usize, usize, usize)| (c.0 as int, c.1 as int, c.2 as int, c.3 as int)),
                    forall|q: int|
                        0 <= q < cells_found@.len() ==> (#[trigger] cells_found@[q]).0 + cells_found@[q].2 <= b.width
                            && cells_found@[q].1 + cells_found@[q].3 <= b.height && 5 <= cells_found@[q].2 <= 50
                            && cells_found@[q].3 == line.3,
                    line.3 > 0,
                    text@ == cv.take(j as int).map_values(|c: (int, int, int, int)| char_of(ink, c, ts)),
                decreases cells_found.len() - j,
            {
                let cell = cells_found[j];
                assert(cell_in(cell, b.width as int, b.height as int)) by {
                    assert(cells_found@[j as int].3 == line.3);
                }
                let ch = self.recognize_character(&b, cell);
                let ghost before = text@;
                crate::text::push_char(&mut text, ch);
                proof {
                    let f = |c: (int, int, int, int)| char_of(ink, c, ts);
                    assert(cv.take(j + 1) =~= cv.take(j as int).push(cv[j as int]));
                    assert(cv.take(j as int).push(cv[j as int]).map_values(f) =~= cv.take(j as int).map_values(f).push(f(cv[j as int])));
                }
                j = j + 1;
            }
            proof {
                assert(cv.take(cells_found.len() as int) =~= cv);
                assert(lv[k as int] == (line.0 as int, line.1 as int, line.2 as int, line.3 as int));
                assert(lv.take(k + 1).drop_last() =~= lv.take(k as int));
                assert(lv.take(k + 1).last() == lv[k as int]);
            }
            if cells_found.len() > 0 {
                let (x, y, w, h) = line;
                let region = TextRegion { x, y, width: w, height: h, text, font_size: h };
                let ghost before = regions@;
                regions.push(region);
                proof {
                    let g = |t: TextRegion| region_view(t);
                    assert(regions@ =~= before.push(region));
                    assert(before.push(region).map_values(g) =~= before.map_values(g).push(g(region)));
                }
            }
            k = k + 1;
        }
        proof {
            assert(lv.take(lines.len() as int) =~= lv);
        }
        Ok(regions)
    }
}

/// The text of `image` as the recognizer with the standard templates
/// reads it: the texts of its regions joined with spaces.
pub fn extract_text_from_image(image: &Image) -> (r: Result<String, TextRecognitionError>)
    requires
        image.wf(),
    ensures
        r matches Ok(s) && exists|ts: Seq<(char, CharacterBitmap)>|
            standard_templates(ts) && s@ == #[trigger] recognized_text(image, ts),
{
    let recognizer = TextRecognizer::new();
    let regions = match recognizer.recognize_text(image) {
        Ok(v) => v,
        Err(e) => {
            return Err(e);
        },
    };
    let ghost rv = regions@.map_values(|t: TextRegion| region_view(t)).map_values(|t: ((int, int, int, int), Seq<char>)| t.1);
    let mut out = String::new();
    let mut k: usize = 0;
    while k < regions.len()
        invariant
            k <= regions.len(),
            rv == regions@.map_values(|t: TextRegion| region_view(t)).map_values(|t: ((int, int, int, int), Seq<char>)| t.1),
            out@ == joined_texts(rv.take(k as int)),
        decreases regions.len() - k,
    {
        assert(rv.take(k + 1).drop_last() =~= rv.take(k as int));
        assert(rv[k as int] == regions@[k as int].text@);
        if k > 0 {
            crate::text::push_char(&mut out, ' ');
        }
        out.append(regions[k].text.as_str());
        proof {
            if k == 0 {
                assert(rv.take(1) =~= seq![rv[0]]);
            }
        }
        assert(out@ =~= joined_texts(rv.take(k + 1)));
        k = k + 1;
    }
    assert(rv.take(regions.len() as int) =~= rv);
    proof {
        let ts = recognizer.templates();
        assert(rv =~= recognized(image, ts).map_values(|t: ((int, int, int, int), Seq<char>)| t.1));
        assert(out@ == recognized_text(image, ts));
    }
    Ok(out)
}

} // verus!
