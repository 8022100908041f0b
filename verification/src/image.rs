//! Raw pixel buffers and the basic image operations the vision code is
//! built from: pixel access, grayscale conversion, resizing, cropping,
//! Sobel edges, thresholding, histograms and connected components.

use vstd::prelude::*;
use vstd::slice::slice_subrange;

verus! {

/// A row-major pixel buffer: `width * height` pixels of `channels` bytes.
pub struct Image {
    pub width: usize,
    pub height: usize,
    pub data: Vec<u8>,
    pub channels: usize,
}

/// `(k + 1) * c <= (w * h) * c` for a pixel number `k` below `w * h`.
pub proof fn lemma_pixel_offset_bounds(w: int, h: int, c: int, k: int)
    by (nonlinear_arith)
    requires
        0 <= k < w * h,
        0 <= c,
    ensures
        0 <= k * c,
        k * c + c <= w * h * c,
{
}

/// Row-major numbering of an in-bounds pixel stays below `w * h`.
pub proof fn lemma_pixel_number(w: int, h: int, x: int, y: int)
    by (nonlinear_arith)
    requires
        0 <= x < w,
        0 <= y < h,
    ensures
        0 <= y * w,
        0 <= y * w + x < w * h,
{
}

/// Byte ranges of two different pixel numbers do not overlap.
pub proof fn lemma_pixel_ranges_disjoint(c: int, k1: int, k2: int)
    by (nonlinear_arith)
    requires
        0 <= k1 < k2,
        0 <= c,
    ensures
        k1 * c + c <= k2 * c,
{
}

/// Two in-bounds coordinates with the same row-major number are equal.
pub proof fn lemma_pixel_number_injective(w: int, x1: int, y1: int, x2: int, y2: int)
    by (nonlinear_arith)
    requires
        0 <= x1 < w,
        0 <= x2 < w,
        0 <= y1,
        0 <= y2,
        y1 * w + x1 == y2 * w + x2,
    ensures
        x1 == x2,
        y1 == y2,
{
}

/// The `c` bytes of pixel `(x, y)` in a row-major buffer of width `w`.
pub open spec fn seq_pixel(data: Seq<u8>, w: int, c: int, x: int, y: int) -> Seq<u8> {
    data.subrange((y * w + x) * c, (y * w + x) * c + c)
}

/// `data` with the bytes of pixel `(x, y)` replaced by `p`.
pub open spec fn seq_with_pixel(data: Seq<u8>, w: int, c: int, x: int, y: int, p: Seq<u8>) -> Seq<u8> {
    let o = (y * w + x) * c;
    Seq::new(data.len(), |i: int| if o <= i < o + c { p[i - o] } else { data[i] })
}

/// A pixel of `c` zero bytes.
pub open spec fn zero_pixel(c: int) -> Seq<u8> {
    Seq::new(c as nat, |i: int| 0u8)
}

/// Writing one pixel sets that pixel and leaves every other pixel alone.
pub proof fn lemma_write_pixel(data: Seq<u8>, w: int, h: int, c: int, x: int, y: int, p: Seq<u8>)
    requires
        0 <= c,
        data.len() == w * h * c,
        0 <= x < w,
        0 <= y < h,
        p.len() == c,
    ensures
        seq_with_pixel(data, w, c, x, y, p).len() == data.len(),
        seq_pixel(seq_with_pixel(data, w, c, x, y, p), w, c, x, y) == p,
        forall|xx: int, yy: int|
            0 <= xx < w && 0 <= yy < h && (xx != x || yy != y) ==> #[trigger] seq_pixel(
                seq_with_pixel(data, w, c, x, y, p),
                w,
                c,
                xx,
                yy,
            ) == seq_pixel(data, w, c, xx, yy),
{
    let nd = seq_with_pixel(data, w, c, x, y, p);
    lemma_pixel_number(w, h, x, y);
    lemma_pixel_offset_bounds(w, h, c, y * w + x);
    assert(seq_pixel(nd, w, c, x, y) =~= p);
    assert forall|xx: int, yy: int|
        0 <= xx < w && 0 <= yy < h && (xx != x || yy != y) implies #[trigger] seq_pixel(
            nd,
            w,
            c,
            xx,
            yy,
        ) == seq_pixel(data, w, c, xx, yy) by {
        lemma_pixel_number(w, h, xx, yy);
        lemma_pixel_offset_bounds(w, h, c, yy * w + xx);
        if yy * w + xx == y * w + x {
            lemma_pixel_number_injective(w, xx, yy, x, y);
        }
        if yy * w + xx < y * w + x {
            lemma_pixel_ranges_disjoint(c, yy * w + xx, y * w + x);
        } else {
            lemma_pixel_ranges_disjoint(c, y * w + x, yy * w + xx);
        }
        assert(seq_pixel(nd, w, c, xx, yy) =~= seq_pixel(data, w, c, xx, yy));
    }
}

/// Every pixel of an all-zero buffer is a zero pixel.
pub proof fn lemma_zero_pixels(data: Seq<u8>, w: int, h: int, c: int)
    requires
        0 <= c,
        data.len() == w * h * c,
        forall|i: int| 0 <= i < data.len() ==> data[i] == 0,
    ensures
        forall|xx: int, yy: int|
            0 <= xx < w && 0 <= yy < h ==> #[trigger] seq_pixel(data, w, c, xx, yy) == zero_pixel(c),
{
    assert forall|xx: int, yy: int| 0 <= xx < w && 0 <= yy < h implies #[trigger] seq_pixel(
        data,
        w,
        c,
        xx,
        yy,
    ) == zero_pixel(c) by {
        lemma_pixel_number(w, h, xx, yy);
        lemma_pixel_offset_bounds(w, h, c, yy * w + xx);
        assert(seq_pixel(data, w, c, xx, yy) =~= zero_pixel(c));
    }
}

/// Standard luminance of an RGB triple, in integer arithmetic.
pub open spec fn luma(r: u8, g: u8, b: u8) -> u8 {
    ((299 * r + 587 * g + 114 * b) / 1000) as u8
}

/// The gray level a pixel of `channels` bytes converts to.
pub open spec fn gray_value(p: Seq<u8>, channels: int) -> u8 {
    if channels == 1 {
        p[0]
    } else if channels == 3 || channels == 4 {
        luma(p[0], p[1], p[2])
    } else {
        0
    }
}

impl Image {
    /// The buffer holds exactly `width * height * channels` bytes.
    pub open spec fn wf(&self) -> bool {
        &&& self.width * self.height <= usize::MAX
        &&& self.width * self.height * self.channels <= usize::MAX
        &&& self.data@.len() == self.width * self.height * self.channels
    }

    pub open spec fn in_bounds(&self, x: int, y: int) -> bool {
        0 <= x < self.width && 0 <= y < self.height
    }

    /// The bytes of the pixel with row-major number `k`.
    pub open spec fn pixel_at(&self, k: int) -> Seq<u8> {
        self.data@.subrange(k * self.channels, k * self.channels + self.channels)
    }

    /// The bytes of pixel `(x, y)`.
    pub open spec fn pixel(&self, x: int, y: int) -> Seq<u8> {
        seq_pixel(self.data@, self.width as int, self.channels as int, x, y)
    }

    /// The buffer after writing `p` at `(x, y)`, which happens only when
    /// the pixel is in bounds and `p` has one byte per channel.
    pub open spec fn with_pixel(&self, x: int, y: int, p: Seq<u8>) -> Seq<u8> {
        if self.in_bounds(x, y) && p.len() == self.channels {
            seq_with_pixel(self.data@, self.width as int, self.channels as int, x, y, p)
        } else {
            self.data@
        }
    }

    /// A zero-filled image.
    pub fn new(width: usize, height: usize, channels: usize) -> (img: Image)
        requires
            width * height <= usize::MAX,
            width * height * channels <= usize::MAX,
        ensures
            img.wf(),
            img.width == width,
            img.height == height,
            img.channels == channels,
            forall|i: int| 0 <= i < img.data@.len() ==> img.data@[i] == 0,
    {
        let n = width * height * channels;
        let mut data: Vec<u8> = Vec::new();
        let mut i: usize = 0;
        while i < n
            invariant
                i <= n,
                data@.len() == i,
                forall|j: int| 0 <= j < i ==> data@[j] == 0,
            decreases n - i,
        {
            data.push(0);
            i = i + 1;
        }
        Image { width, height, data, channels }
    }

    /// Wraps RGB bytes as a three-channel image, without checking the length.
    pub fn from_rgb_data(width: usize, height: usize, data: Vec<u8>) -> (img: Image)
        ensures
            img.width == width,
            img.height == height,
            img.data@ == data@,
            img.channels == 3,
    {
        Image { width, height, data, channels: 3 }
    }

    /// Wraps RGBA bytes as a four-channel image, without checking the length.
    pub fn from_rgba_data(width: usize, height: usize, data: Vec<u8>) -> (img: Image)
        ensures
            img.width == width,
            img.height == height,
            img.data@ == data@,
            img.channels == 4,
    {
        Image { width, height, data, channels: 4 }
    }

    /// The bytes of pixel `(x, y)`, or `None` outside the image.
    pub fn get_pixel(&self, x: usize, y: usize) -> (r: Option<&[u8]>)
        requires
            self.wf(),
        ensures
            !self.in_bounds(x as int, y as int) ==> r is None,
            self.in_bounds(x as int, y as int) ==> (r matches Some(p) && p@ == self.pixel(
                x as int,
                y as int,
            )),
    {
        if x >= self.width || y >= self.height {
            return None;
        }
        proof {
            lemma_pixel_number(self.width as int, self.height as int, x as int, y as int);
            lemma_pixel_offset_bounds(
                self.width as int,
                self.height as int,
                self.channels as int,
                y * self.width + x,
            );
        }
        let index = (y * self.width + x) * self.channels;
        Some(slice_subrange(self.data.as_slice(), index, index + self.channels))
    }

    /// Writes `pixel` at `(x, y)`; does nothing outside the image or when
    /// `pixel` does not have one byte per channel.
    pub fn set_pixel(&mut self, x: usize, y: usize, pixel: &[u8])
        requires
            old(self).wf(),
        ensures
            final(self).width == old(self).width,
            final(self).height == old(self).height,
            final(self).channels == old(self).channels,
            final(self).data@ == old(self).with_pixel(x as int, y as int, pixel@),
            final(self).wf(),
            old(self).in_bounds(x as int, y as int) && pixel@.len() == old(self).channels
                ==> final(self).pixel(x as int, y as int) == pixel@,
            forall|xx: int, yy: int|
                old(self).in_bounds(xx, yy) && (xx != x || yy != y) ==> #[trigger] final(self).pixel(xx, yy)
                    == old(self).pixel(xx, yy),
    {
        if x >= self.width || y >= self.height || pixel.len() != self.channels {
            return;
        }
        proof {
            lemma_pixel_number(self.width as int, self.height as int, x as int, y as int);
            lemma_pixel_offset_bounds(
                self.width as int,
                self.height as int,
                self.channels as int,
                y * self.width + x,
            );
        }
        let ghost before = *self;
        let index = (y * self.width + x) * self.channels;
        let c = self.channels;
        let mut i: usize = 0;
        while i < c
            invariant
                i <= c,
                c == self.channels,
                c == pixel@.len(),
                self.width == before.width,
                self.height == before.height,
                self.channels == before.channels,
                self.data@.len() == before.data@.len(),
                index == (y * self.width + x) * self.channels,
                index + c <= self.data@.len(),
                before.wf(),
                forall|j: int|
                    0 <= j < self.data@.len() ==> self.data@[j] == (if index <= j < index + i {
                        pixel@[j - index]
                    } else {
                        before.data@[j]
                    }),
            decreases c - i,
        {
            self.data.set(index + i, pixel[i]);
            i = i + 1;
        }
        assert(self.data@ =~= before.with_pixel(x as int, y as int, pixel@));
        proof {
            lemma_write_pixel(
                before.data@,
                before.width as int,
                before.height as int,
                before.channels as int,
                x as int,
                y as int,
                pixel@,
            );
        }
    }

    /// The pixel a resized image takes at `(x, y)`: the source pixel at
    /// `(x * width / new_width, y * height / new_height)` (nearest
    /// neighbour), or zero bytes where that falls outside the source.
    pub open spec fn resized_pixel(&self, nw: int, nh: int, x: int, y: int) -> Seq<u8> {
        let sx = x * self.width / nw;
        let sy = y * self.height / nh;
        if self.in_bounds(sx, sy) {
            self.pixel(sx, sy)
        } else {
            zero_pixel(self.channels as int)
        }
    }

    /// The pixel a crop at `(x0, y0)` takes at `(x, y)`: the source pixel at
    /// `(x0 + x, y0 + y)`, or zero bytes where that falls outside the source.
    pub open spec fn cropped_pixel(&self, x0: int, y0: int, x: int, y: int) -> Seq<u8> {
        if self.in_bounds(x0 + x, y0 + y) {
            self.pixel(x0 + x, y0 + y)
        } else {
            zero_pixel(self.channels as int)
        }
    }

    /// Nearest-neighbour scaling to `new_width` by `new_height`.
    pub fn resize(&self, new_width: usize, new_height: usize) -> (out: Image)
        requires
            self.wf(),
            new_width * new_height <= usize::MAX,
            new_width * new_height * self.channels <= usize::MAX,
        ensures
            out.wf(),
            out.width == new_width,
            out.height == new_height,
            out.channels == self.channels,
            forall|x: int, y: int|
                0 <= x < new_width && 0 <= y < new_height ==> #[trigger] out.pixel(x, y)
                    == self.resized_pixel(new_width as int, new_height as int, x, y),
    {
        let mut out = Image::new(new_width, new_height, self.channels);
        proof {
            lemma_zero_pixels(
                out.data@,
                new_width as int,
                new_height as int,
                self.channels as int,
            );
        }
        let ghost nw = new_width as int;
        let ghost nh = new_height as int;
        let ghost c = self.channels as int;
        let mut y: usize = 0;
        while y < new_height
            invariant
                self.wf(),
                out.wf(),
                out.width == new_width,
                out.height == new_height,
                out.channels == self.channels,
                y <= new_height,
                nw == new_width,
                nh == new_height,
                c == self.channels,
                forall|xx: int, yy: int|
                    0 <= xx < nw && 0 <= yy < nh ==> #[trigger] out.pixel(xx, yy) == (if yy < y {
                        self.resized_pixel(nw, nh, xx, yy)
                    } else {
                        zero_pixel(c)
                    }),
            decreases new_height - y,
        {
            let mut x: usize = 0;
            while x < new_width
                invariant
                    self.wf(),
                    out.wf(),
                    out.width == new_width,
                    out.height == new_height,
                    out.channels == self.channels,
                    y < new_height,
                    x <= new_width,
                    nw == new_width,
                    nh == new_height,
                    c == self.channels,
                    forall|xx: int, yy: int|
                        0 <= xx < nw && 0 <= yy < nh ==> #[trigger] out.pixel(xx, yy) == (if yy < y
                            || (yy == y && xx < x) {
                            self.resized_pixel(nw, nh, xx, yy)
                        } else {
                            zero_pixel(c)
                        }),
                decreases new_width - x,
            {
                assert((x as int) * (self.width as int) <= u128::MAX) by (nonlinear_arith)
                    requires
                        x < usize::MAX,
                        self.width <= usize::MAX,
                ;
                assert((y as int) * (self.height as int) <= u128::MAX) by (nonlinear_arith)
                    requires
                        y < usize::MAX,
                        self.height <= usize::MAX,
                ;
                assert((x as int) * (self.width as int) / (new_width as int) <= self.width)
                    by (nonlinear_arith)
                    requires
                        x < new_width,
                ;
                assert((y as int) * (self.height as int) / (new_height as int) <= self.height)
                    by (nonlinear_arith)
                    requires
                        y < new_height,
                ;
                let src_x = ((x as u128) * (self.width as u128) / (new_width as u128)) as usize;
                let src_y = ((y as u128) * (self.height as u128) / (new_height as u128)) as usize;
                match self.get_pixel(src_x, src_y) {
                    Some(p) => {
                        proof {
                            lemma_pixel_number(
                                self.width as int,
                                self.height as int,
                                src_x as int,
                                src_y as int,
                            );
                            lemma_pixel_offset_bounds(
                                self.width as int,
                                self.height as int,
                                c,
                                src_y * self.width + src_x,
                            );
                        }
                        out.set_pixel(x, y, p);
                    },
                    None => {},
                }
                x = x + 1;
            }
            y = y + 1;
        }
        out
    }

    /// The `width` by `height` region whose top-left corner is `(x, y)`;
    /// parts outside the source are zero.
    pub fn crop(&self, x: usize, y: usize, width: usize, height: usize) -> (out: Image)
        requires
            self.wf(),
            width * height <= usize::MAX,
            width * height * self.channels <= usize::MAX,
            x + width <= usize::MAX,
            y + height <= usize::MAX,
        ensures
            out.wf(),
            out.width == width,
            out.height == height,
            out.channels == self.channels,
            forall|cx: int, cy: int|
                0 <= cx < width && 0 <= cy < height ==> #[trigger] out.pixel(cx, cy)
                    == self.cropped_pixel(x as int, y as int, cx, cy),
    {
        let mut out = Image::new(width, height, self.channels);
        proof {
            lemma_zero_pixels(out.data@, width as int, height as int, self.channels as int);
        }
        let ghost c = self.channels as int;
        let mut cy: usize = 0;
        while cy < height
            invariant
                self.wf(),
                out.wf(),
                out.width == width,
                out.height == height,
                out.channels == self.channels,
                cy <= height,
                c == self.channels,
                x + width <= usize::MAX,
                y + height <= usize::MAX,
                forall|xx: int, yy: int|
                    0 <= xx < width && 0 <= yy < height ==> #[trigger] out.pixel(xx, yy) == (if yy
                        < cy {
                        self.cropped_pixel(x as int, y as int, xx, yy)
                    } else {
                        zero_pixel(c)
                    }),
            decreases height - cy,
        {
            let mut cx: usize = 0;
            while cx < width
                invariant
                    self.wf(),
                    out.wf(),
                    out.width == width,
                    out.height == height,
                    out.channels == self.channels,
                    cy < height,
                    cx <= width,
                    c == self.channels,
                    x + width <= usize::MAX,
                    y + height <= usize::MAX,
                    forall|xx: int, yy: int|
                        0 <= xx < width && 0 <= yy < height ==> #[trigger] out.pixel(xx, yy) == (if yy
                            < cy || (yy == cy && xx < cx) {
                            self.cropped_pixel(x as int, y as int, xx, yy)
                        } else {
                            zero_pixel(c)
                        }),
                decreases width - cx,
            {
                match self.get_pixel(x + cx, y + cy) {
                    Some(p) => {
                        proof {
                            lemma_pixel_number(
                                self.width as int,
                                self.height as int,
                                x + cx,
                                y + cy,
                            );
                            lemma_pixel_offset_bounds(
                                self.width as int,
                                self.height as int,
                                c,
                                (y + cy) * self.width + (x + cx),
                            );
                        }
                        out.set_pixel(cx, cy, p);
                    },
                    None => {},
                }
                cx = cx + 1;
            }
            cy = cy + 1;
        }
        out
    }

    /// The byte at `(x, y)` of the first channel.
    pub open spec fn byte_at(&self, x: int, y: int) -> u8 {
        self.data@[y * self.width + x]
    }

    /// The gray level of pixel `(x, y)`.
    pub open spec fn gray_at(&self, x: int, y: int) -> int {
        gray_value(self.pixel(x, y), self.channels as int) as int
    }

    /// A single-channel copy for processing: the image itself when it
    /// already has one channel, its grayscale conversion otherwise.
    fn gray_copy(&self) -> (gray: Image)
        requires
            self.wf(),
        ensures
            gray.wf(),
            gray.width == self.width,
            gray.height == self.height,
            gray.channels == 1,
            forall|k: int|
                0 <= k < self.width * self.height ==> #[trigger] gray.data@[k] == gray_value(
                    self.pixel_at(k),
                    self.channels as int,
                ),
    {
        if self.channels == 1 {
            let n = self.data.len();
            let mut data: Vec<u8> = Vec::new();
            let mut i: usize = 0;
            while i < n
                invariant
                    n == self.data@.len(),
                    i <= n,
                    data@ == self.data@.subrange(0, i as int),
                decreases n - i,
            {
                data.push(self.data[i]);
                i = i + 1;
                assert(data@ =~= self.data@.subrange(0, i as int));
            }
            assert(data@ =~= self.data@);
            let gray = Image { width: self.width, height: self.height, data, channels: 1 };
            assert forall|k: int| 0 <= k < self.width * self.height implies #[trigger] gray.data@[k]
                == gray_value(self.pixel_at(k), self.channels as int) by {
                lemma_pixel_offset_bounds(self.width as int, self.height as int, 1, k);
            }
            gray
        } else {
            self.to_grayscale()
        }
    }

    /// One gray byte per pixel, from the luminance of the colour channels.
    pub fn to_grayscale(&self) -> (gray: Image)
        requires
            self.wf(),
        ensures
            gray.wf(),
            gray.width == self.width,
            gray.height == self.height,
            gray.channels == 1,
            forall|k: int|
                0 <= k < self.width * self.height ==> #[trigger] gray.data@[k] == gray_value(
                    self.pixel_at(k),
                    self.channels as int,
                ),
    {
        let mut gray = Image::new(self.width, self.height, 1);
        let n = self.width * self.height;
        let mut k: usize = 0;
        while k < n
            invariant
                self.wf(),
                n == self.width * self.height,
                k <= n,
                gray.wf(),
                gray.width == self.width,
                gray.height == self.height,
                gray.channels == 1,
                gray.data@.len() == n,
                forall|j: int|
                    0 <= j < k ==> #[trigger] gray.data@[j] == gray_value(
                        self.pixel_at(j),
                        self.channels as int,
                    ),
            decreases n - k,
        {
            proof {
                lemma_pixel_offset_bounds(
                    self.width as int,
                    self.height as int,
                    self.channels as int,
                    k as int,
                );
            }
            let off = k * self.channels;
            let v: u8 = if self.channels == 1 {
                self.data[off]
            } else if self.channels == 3 || self.channels == 4 {
                rgb_to_gray(self.data[off], self.data[off + 1], self.data[off + 2])
            } else {
                0
            };
            gray.data.set(k, v);
            k = k + 1;
        }
        gray
    }
}

/// Integer luminance of an RGB triple.
fn rgb_to_gray(r: u8, g: u8, b: u8) -> (v: u8)
    ensures
        v == luma(r, g, b),
{
    let s: u32 = 299 * (r as u32) + 587 * (g as u32) + 114 * (b as u32);
    (s / 1000) as u8
}

/// The horizontal Sobel response at `(x, y)`.
pub open spec fn sobel_gx(img: &Image, x: int, y: int) -> int {
    -img.gray_at(x - 1, y - 1) + img.gray_at(x + 1, y - 1) - 2 * img.gray_at(x - 1, y) + 2
        * img.gray_at(x + 1, y) - img.gray_at(x - 1, y + 1) + img.gray_at(x + 1, y + 1)
}

/// The vertical Sobel response at `(x, y)`.
pub open spec fn sobel_gy(img: &Image, x: int, y: int) -> int {
    -img.gray_at(x - 1, y - 1) - 2 * img.gray_at(x, y - 1) - img.gray_at(x + 1, y - 1)
        + img.gray_at(x - 1, y + 1) + 2 * img.gray_at(x, y + 1) + img.gray_at(x + 1, y + 1)
}

/// `v` is the square root of `n` rounded down, saturated at 255.
pub open spec fn is_capped_sqrt(v: int, n: int) -> bool {
    &&& 0 <= v <= 255
    &&& if n >= 65025 {
        v == 255
    } else {
        v * v <= n < (v + 1) * (v + 1)
    }
}

/// The square root of `n` rounded down, saturated at 255.
pub open spec fn capped_sqrt(n: int) -> int {
    choose|v: int| is_capped_sqrt(v, n)
}

/// There is only one capped square root.
pub proof fn lemma_capped_sqrt_unique(v1: int, v2: int, n: int)
    requires
        is_capped_sqrt(v1, n),
        is_capped_sqrt(v2, n),
    ensures
        v1 == v2,
{
    if n < 65025 {
        if v1 < v2 {
            assert((v1 + 1) * (v1 + 1) <= v2 * v2) by (nonlinear_arith)
                requires
                    0 <= v1 < v2,
            ;
        } else if v2 < v1 {
            assert((v2 + 1) * (v2 + 1) <= v1 * v1) by (nonlinear_arith)
                requires
                    0 <= v2 < v1,
            ;
        }
    }
}

/// The edge strength Sobel assigns to pixel `(x, y)`: the capped
/// magnitude of the gradient inside the one-pixel border, zero on it.
pub open spec fn sobel_value(img: &Image, x: int, y: int) -> int {
    if 1 <= x < img.width - 1 && 1 <= y < img.height - 1 {
        let gx = sobel_gx(img, x, y);
        let gy = sobel_gy(img, x, y);
        capped_sqrt(gx * gx + gy * gy)
    } else {
        0
    }
}

/// Square root rounded down, saturated at 255 (the gradient magnitude
/// stored in one byte).
fn capped_isqrt(n: u32) -> (v: u8)
    ensures
        v == capped_sqrt(n as int),
{
    if n >= 65025 {
        proof {
            assert(is_capped_sqrt(255, n as int));
            lemma_capped_sqrt_unique(255, capped_sqrt(n as int), n as int);
        }
        return 255;
    }
    let mut lo: u32 = 0;
    let mut hi: u32 = 256;
    while hi - lo > 1
        invariant
            lo < hi <= 256,
            lo * lo <= n,
            n < hi * hi,
            n < 65025,
        decreases hi - lo,
    {
        let mid = lo + (hi - lo) / 2;
        assert(mid * mid <= 65536) by (nonlinear_arith)
            requires
                mid <= 256,
        ;
        if mid * mid <= n {
            lo = mid;
        } else {
            hi = mid;
        }
    }
    proof {
        assert(hi == lo + 1);
        assert(is_capped_sqrt(lo as int, n as int));
        lemma_capped_sqrt_unique(lo as int, capped_sqrt(n as int), n as int);
    }
    lo as u8
}

/// Sobel edge strength of every pixel, as a one-channel image. The border
/// pixels stay zero.
pub fn sobel_edge_detection(image: &Image) -> (edges: Image)
    requires
        image.wf(),
        image.height >= 1,
        image.height >= 3 ==> image.width >= 1,
    ensures
        edges.wf(),
        edges.width == image.width,
        edges.height == image.height,
        edges.channels == 1,
        forall|x: int, y: int|
            image.in_bounds(x, y) ==> #[trigger] edges.byte_at(x, y) == sobel_value(image, x, y),
{
    let gray = image.gray_copy();
    let mut edges = Image::new(image.width, image.height, 1);
    let w = image.width;
    let h = image.height;
    proof {
        assert forall|x: int, y: int| image.in_bounds(x, y) implies #[trigger] image.gray_at(x, y)
            == gray.data@[y * w + x] by {
            lemma_pixel_number(w as int, h as int, x, y);
        }
        assert forall|x: int, y: int| image.in_bounds(x, y) implies #[trigger] edges.byte_at(x, y)
            == 0 by {
            lemma_pixel_number(w as int, h as int, x, y);
        }
    }
    let mut y: usize = 1;
    while y < h - 1
        invariant
            image.wf(),
            gray.wf(),
            edges.wf(),
            w == image.width,
            h == image.height,
            gray.width == w,
            gray.height == h,
            gray.channels == 1,
            edges.width == w,
            edges.height == h,
            edges.channels == 1,
            1 <= y,
            h >= 1,
            y < h - 1 ==> w >= 1,
            y <= h - 1 || h == 1,
            forall|x: int, yy: int|
                image.in_bounds(x, yy) ==> #[trigger] image.gray_at(x, yy) == gray.data@[yy * w + x],
            forall|x: int, yy: int|
                image.in_bounds(x, yy) ==> #[trigger] edges.byte_at(x, yy) == (if yy < y {
                    sobel_value(image, x, yy)
                } else {
                    0
                }),
        decreases h - y,
    {
        let mut x: usize = 1;
        while x < w - 1
            invariant
                image.wf(),
                gray.wf(),
                edges.wf(),
                w == image.width,
                h == image.height,
                gray.width == w,
                gray.height == h,
                gray.channels == 1,
                edges.width == w,
                edges.height == h,
                edges.channels == 1,
                1 <= y < h - 1,
                1 <= x,
                x <= w - 1 || w == 1,
                w >= 1,
                forall|xx: int, yy: int|
                    image.in_bounds(xx, yy) ==> #[trigger] image.gray_at(xx, yy) == gray.data@[yy
                        * w + xx],
                forall|xx: int, yy: int|
                    image.in_bounds(xx, yy) ==> #[trigger] edges.byte_at(xx, yy) == (if yy < y || (yy
                        == y && xx < x) {
                        sobel_value(image, xx, yy)
                    } else {
                        0
                    }),
            decreases w - x,
        {
            proof {
                lemma_pixel_number(w as int, h as int, x - 1, y - 1);
                lemma_pixel_number(w as int, h as int, x as int, y - 1);
                lemma_pixel_number(w as int, h as int, x + 1, y - 1);
                lemma_pixel_number(w as int, h as int, x - 1, y as int);
                lemma_pixel_number(w as int, h as int, x as int, y as int);
                lemma_pixel_number(w as int, h as int, x + 1, y as int);
                lemma_pixel_number(w as int, h as int, x - 1, y + 1);
                lemma_pixel_number(w as int, h as int, x as int, y + 1);
                lemma_pixel_number(w as int, h as int, x + 1, y + 1);
                assert((y - 1) * w + w == y * w) by (nonlinear_arith);
                assert(y * w + w == (y + 1) * w) by (nonlinear_arith);
            }
            let r0 = (y - 1) * w;
            let r1 = y * w;
            let r2 = (y + 1) * w;
            let a = gray.data[r0 + x - 1] as i32;
            let b = gray.data[r0 + x] as i32;
            let c = gray.data[r0 + x + 1] as i32;
            let d = gray.data[r1 + x - 1] as i32;
            let f = gray.data[r1 + x + 1] as i32;
            let g = gray.data[r2 + x - 1] as i32;
            let k = gray.data[r2 + x] as i32;
            let l = gray.data[r2 + x + 1] as i32;
            let gx: i32 = -a + c - 2 * d + 2 * f - g + l;
            let gy: i32 = -a - 2 * b - c + g + 2 * k + l;
            assert(gx * gx <= 1040400 && gy * gy <= 1040400) by (nonlinear_arith)
                requires
                    -1020 <= gx <= 1020,
                    -1020 <= gy <= 1020,
            ;
            assert(0 <= gx * gx && 0 <= gy * gy) by (nonlinear_arith);
            let n: u32 = (gx * gx + gy * gy) as u32;
            let magnitude = capped_isqrt(n);
            proof {
                assert(image.gray_at(x - 1, y - 1) == a);
                assert(image.gray_at(x as int, y - 1) == b);
                assert(image.gray_at(x + 1, y - 1) == c);
                assert(image.gray_at(x - 1, y as int) == d);
                assert(image.gray_at(x + 1, y as int) == f);
                assert(image.gray_at(x - 1, y + 1) == g);
                assert(image.gray_at(x as int, y + 1) == k);
                assert(image.gray_at(x + 1, y + 1) == l);
                assert(gx == sobel_gx(image, x as int, y as int));
                assert(gy == sobel_gy(image, x as int, y as int));
            }
            let ghost e0 = edges;
            edges.data.set(r1 + x, magnitude);
            proof {
                assert forall|xx: int, yy: int| image.in_bounds(xx, yy) implies #[trigger] edges.byte_at(
                    xx,
                    yy,
                ) == (if yy < y || (yy == y && xx < x + 1) {
                    sobel_value(image, xx, yy)
                } else {
                    0
                }) by {
                    lemma_pixel_number(w as int, h as int, xx, yy);
                    if yy * w + xx == y * w + x {
                        lemma_pixel_number_injective(w as int, xx, yy, x as int, y as int);
                    } else {
                        assert(edges.byte_at(xx, yy) == e0.byte_at(xx, yy));
                    }
                }
            }
            x = x + 1;
        }
        y = y + 1;
    }
    edges
}

/// Binarises the gray levels: 255 above `threshold`, 0 otherwise.
pub fn threshold(image: &Image, cutoff: u8) -> (binary: Image)
    requires
        image.wf(),
    ensures
        binary.wf(),
        binary.width == image.width,
        binary.height == image.height,
        binary.channels == 1,
        forall|k: int|
            0 <= k < image.width * image.height ==> #[trigger] binary.data@[k] == (if gray_value(
                image.pixel_at(k),
                image.channels as int,
            ) > cutoff {
                255u8
            } else {
                0u8
            }),
{
    let gray = image.gray_copy();
    let mut binary = Image::new(image.width, image.height, 1);
    let n = image.width * image.height;
    let mut k: usize = 0;
    while k < n
        invariant
            image.wf(),
            gray.wf(),
            binary.wf(),
            n == image.width * image.height,
            gray.width == image.width,
            gray.height == image.height,
            gray.channels == 1,
            binary.width == image.width,
            binary.height == image.height,
            binary.channels == 1,
            k <= n,
            forall|j: int|
                0 <= j < image.width * image.height ==> #[trigger] gray.data@[j] == gray_value(
                    image.pixel_at(j),
                    image.channels as int,
                ),
            forall|j: int|
                0 <= j < k ==> #[trigger] binary.data@[j] == (if gray_value(
                    image.pixel_at(j),
                    image.channels as int,
                ) > cutoff {
                    255u8
                } else {
                    0u8
                }),
        decreases n - k,
    {
        let value: u8 = if gray.data[k] > cutoff {
            255
        } else {
            0
        };
        binary.data.set(k, value);
        k = k + 1;
    }
    binary
}

/// The sum of the bytes `s`.
pub open spec fn byte_sum(s: Seq<u8>) -> int
    decreases s.len(),
{
    if s.len() == 0 {
        0
    } else {
        byte_sum(s.drop_last()) + s.last()
    }
}

/// How many of the bytes `s` are not zero.
pub open spec fn nonzero_count(s: Seq<u8>) -> int
    decreases s.len(),
{
    if s.len() == 0 {
        0
    } else {
        nonzero_count(s.drop_last()) + if s.last() > 0 { 1int } else { 0int }
    }
}

proof fn lemma_byte_sum_bound(s: Seq<u8>)
    ensures
        0 <= byte_sum(s) <= 255 * s.len(),
    decreases s.len(),
{
    if s.len() > 0 {
        lemma_byte_sum_bound(s.drop_last());
    }
}

proof fn lemma_nonzero_count_bound(s: Seq<u8>)
    ensures
        0 <= nonzero_count(s) <= s.len(),
    decreases s.len(),
{
    if s.len() > 0 {
        lemma_nonzero_count_bound(s.drop_last());
    }
}

/// The sum of all bytes of `image`; for a one-channel image, of all its
/// pixel values.
pub fn total_intensity(image: &Image) -> (t: u128)
    ensures
        t == byte_sum(image.data@),
{
    let d = &image.data;
    let mut t: u128 = 0;
    let mut i: usize = 0;
    while i < d.len()
        invariant
            i <= d@.len(),
            t == byte_sum(d@.take(i as int)),
        decreases d@.len() - i,
    {
        assert(d@.take(i + 1).drop_last() =~= d@.take(i as int));
        proof {
            lemma_byte_sum_bound(d@.take(i as int));
        }
        t = t + d[i] as u128;
        i = i + 1;
    }
    assert(d@.take(d@.len() as int) =~= d@);
    t
}

/// How many bytes of `image` are not zero; for a one-channel image, how
/// many pixels are lit.
pub fn lit_count(image: &Image) -> (n: usize)
    ensures
        n == nonzero_count(image.data@),
{
    let d = &image.data;
    let mut n: usize = 0;
    let mut i: usize = 0;
    while i < d.len()
        invariant
            i <= d@.len(),
            n == nonzero_count(d@.take(i as int)),
        decreases d@.len() - i,
    {
        assert(d@.take(i + 1).drop_last() =~= d@.take(i as int));
        proof {
            lemma_nonzero_count_bound(d@.take(i as int));
        }
        if d[i] > 0 {
            n = n + 1;
        }
        i = i + 1;
    }
    assert(d@.take(d@.len() as int) =~= d@);
    n
}

/// How many of the first `n` pixels carry `v` in channel `ch`.
pub open spec fn count_value(img: &Image, ch: int, v: int, n: int) -> int
    decreases n,
{
    if n <= 0 {
        0
    } else {
        count_value(img, ch, v, n - 1) + if img.pixel_at(n - 1)[ch] == v {
            1int
        } else {
            0int
        }
    }
}

/// Counts only grow as more pixels are taken in.
pub proof fn lemma_count_value_monotonic(img: &Image, ch: int, v: int, m: int, n: int)
    requires
        0 <= m <= n,
    ensures
        0 <= count_value(img, ch, v, m) <= count_value(img, ch, v, n),
    decreases n - m,
{
    if m < n {
        lemma_count_value_monotonic(img, ch, v, m, n - 1);
    } else {
        lemma_count_value_nonneg(img, ch, v, m);
    }
}

proof fn lemma_count_value_nonneg(img: &Image, ch: int, v: int, n: int)
    ensures
        0 <= count_value(img, ch, v, n),
    decreases n,
{
    if n > 0 {
        lemma_count_value_nonneg(img, ch, v, n - 1);
    }
}

/// The 256-bin histogram of channel `channel`; all zero when the image
/// has no such channel.
pub fn calculate_histogram(image: &Image, channel: usize) -> (histogram: Vec<u32>)
    requires
        image.wf(),
        channel < image.channels ==> forall|v: int|
            0 <= v < 256 ==> #[trigger] count_value(
                image,
                channel as int,
                v,
                image.width * image.height,
            ) <= u32::MAX,
    ensures
        histogram@.len() == 256,
        forall|v: int|
            0 <= v < 256 ==> #[trigger] histogram@[v] == (if channel < image.channels {
                count_value(image, channel as int, v, image.width * image.height)
            } else {
                0
            }),
{
    let mut histogram: Vec<u32> = Vec::new();
    let mut i: usize = 0;
    while i < 256
        invariant
            i <= 256,
            histogram@.len() == i,
            forall|v: int| 0 <= v < i ==> histogram@[v] == 0,
        decreases 256 - i,
    {
        histogram.push(0);
        i = i + 1;
    }
    if channel >= image.channels {
        return histogram;
    }
    let n = image.width * image.height;
    let mut k: usize = 0;
    while k < n
        invariant
            image.wf(),
            n == image.width * image.height,
            channel < image.channels,
            k <= n,
            histogram@.len() == 256,
            forall|v: int|
                0 <= v < 256 ==> #[trigger] count_value(image, channel as int, v, n as int) <= u32::MAX,
            forall|v: int|
                0 <= v < 256 ==> #[trigger] histogram@[v] == count_value(
                    image,
                    channel as int,
                    v,
                    k as int,
                ),
        decreases n - k,
    {
        proof {
            lemma_pixel_offset_bounds(
                image.width as int,
                image.height as int,
                image.channels as int,
                k as int,
            );
        }
        let b = image.data[k * image.channels + channel];
        proof {
            assert(image.pixel_at(k as int)[channel as int] == b);
            lemma_count_value_monotonic(image, channel as int, b as int, k + 1, n as int);
        }
        let old_count = histogram[b as usize];
        histogram.set(b as usize, old_count + 1);
        k = k + 1;
    }
    histogram
}

/// Two coordinates one step apart horizontally or vertically.
pub open spec fn adjacent(a: (usize, usize), b: (usize, usize)) -> bool {
    ||| a.0 == b.0 && (a.1 + 1 == b.1 || b.1 + 1 == a.1)
    ||| a.1 == b.1 && (a.0 + 1 == b.0 || b.0 + 1 == a.0)
}

/// `p` occurs in `comp`.
pub open spec fn contains_point(comp: Seq<(usize, usize)>, p: (usize, usize)) -> bool {
    exists|j: int| 0 <= j < comp.len() && comp[j] == p
}

/// The visited flag of coordinate `p` in a row-major flag buffer.
pub open spec fn visited_at(vis: Seq<bool>, w: int, p: (usize, usize)) -> bool {
    vis[p.1 * w + p.0]
}

impl Image {
    /// Pixel `p` lies in the image and its first byte is non-zero.
    pub open spec fn is_foreground(&self, p: (usize, usize)) -> bool {
        self.in_bounds(p.0 as int, p.1 as int) && self.pixel(p.0 as int, p.1 as int)[0] > 0
    }

    /// Every foreground neighbour of a visited pixel is visited as well.
    pub open spec fn visited_closed(&self, vis: Seq<bool>) -> bool {
        forall|a: (usize, usize), b: (usize, usize)|
            #![trigger visited_at(vis, self.width as int, a), adjacent(a, b)]
            self.in_bounds(a.0 as int, a.1 as int) && visited_at(vis, self.width as int, a)
                && self.is_foreground(b) && adjacent(a, b) ==> visited_at(vis, self.width as int, b)
    }
}

/// Number of set flags.
pub open spec fn count_true(s: Seq<bool>) -> nat
    decreases s.len(),
{
    if s.len() == 0 {
        0
    } else {
        count_true(s.drop_last()) + if s.last() {
            1nat
        } else {
            0nat
        }
    }
}

/// Setting one clear flag adds one to the count, which never exceeds the length.
pub proof fn lemma_count_true_set(s: Seq<bool>, i: int)
    requires
        0 <= i < s.len(),
        !s[i],
    ensures
        count_true(s.update(i, true)) == count_true(s) + 1,
    decreases s.len(),
{
    if i == s.len() - 1 {
        assert(s.update(i, true).drop_last() =~= s.drop_last());
    } else {
        lemma_count_true_set(s.drop_last(), i);
        assert(s.update(i, true).drop_last() =~= s.drop_last().update(i, true));
    }
}

pub proof fn lemma_count_true_bound(s: Seq<bool>)
    ensures
        count_true(s) <= s.len(),
    decreases s.len(),
{
    if s.len() > 0 {
        lemma_count_true_bound(s.drop_last());
    }
}

/// No coordinate occurs twice.
pub open spec fn all_distinct(comp: Seq<(usize, usize)>) -> bool {
    forall|i: int, j: int| 0 <= i < j < comp.len() ==> #[trigger] comp[i] != #[trigger] comp[j]
}

/// Each coordinate after the first is next to an earlier one, so the
/// whole sequence is 4-connected.
pub open spec fn linked(comp: Seq<(usize, usize)>) -> bool {
    forall|j: int| 0 < j < comp.len() ==> #[trigger] linked_at(comp, j)
}

/// Coordinate `j` is next to some earlier coordinate.
pub open spec fn linked_at(comp: Seq<(usize, usize)>, j: int) -> bool {
    exists|i: int| 0 <= i < j && #[trigger] adjacent(comp[i], comp[j])
}

/// Every foreground neighbour of a member is itself a member.
pub open spec fn closed_region(image: &Image, comp: Seq<(usize, usize)>) -> bool {
    forall|j: int, q: (usize, usize)|
        0 <= j < comp.len() && image.is_foreground(q) && #[trigger] adjacent(comp[j], q)
            ==> contains_point(comp, q)
}

/// The in-bounds 4-neighbours of `t`, in the order the fill pushes them.
pub open spec fn neighbours(w: int, h: int, t: (usize, usize)) -> Seq<(usize, usize)> {
    (if t.0 > 0 {
        seq![((t.0 - 1) as usize, t.1)]
    } else {
        Seq::empty()
    }) + (if t.0 + 1 < w {
        seq![((t.0 + 1) as usize, t.1)]
    } else {
        Seq::empty()
    }) + (if t.1 > 0 {
        seq![(t.0, (t.1 - 1) as usize)]
    } else {
        Seq::empty()
    }) + (if t.1 + 1 < h {
        seq![(t.0, (t.1 + 1) as usize)]
    } else {
        Seq::empty()
    })
}

proof fn lemma_neighbours(image: &Image, t: (usize, usize))
    requires
        image.in_bounds(t.0 as int, t.1 as int),
    ensures
        forall|i: int|
            0 <= i < neighbours(image.width as int, image.height as int, t).len() ==> adjacent(
                t,
                #[trigger] neighbours(image.width as int, image.height as int, t)[i],
            ) && image.in_bounds(
                neighbours(image.width as int, image.height as int, t)[i].0 as int,
                neighbours(image.width as int, image.height as int, t)[i].1 as int,
            ),
        forall|q: (usize, usize)|
            image.in_bounds(q.0 as int, q.1 as int) && #[trigger] adjacent(t, q) ==> contains_point(
                neighbours(image.width as int, image.height as int, t),
                q,
            ),
{
    let w = image.width as int;
    let h = image.height as int;
    let a: Seq<(usize, usize)> = if t.0 > 0 {
        seq![((t.0 - 1) as usize, t.1)]
    } else {
        Seq::empty()
    };
    let b: Seq<(usize, usize)> = if t.0 + 1 < w {
        seq![((t.0 + 1) as usize, t.1)]
    } else {
        Seq::empty()
    };
    let c: Seq<(usize, usize)> = if t.1 > 0 {
        seq![(t.0, (t.1 - 1) as usize)]
    } else {
        Seq::empty()
    };
    let d: Seq<(usize, usize)> = if t.1 + 1 < h {
        seq![(t.0, (t.1 + 1) as usize)]
    } else {
        Seq::empty()
    };
    let nb = neighbours(w, h, t);
    assert(nb =~= a + b + c + d);
    assert forall|i: int| 0 <= i < nb.len() implies adjacent(t, #[trigger] nb[i])
        && image.in_bounds(nb[i].0 as int, nb[i].1 as int) by {
        if i < a.len() {
            assert(nb[i] == a[i]);
        } else if i < a.len() + b.len() {
            assert(nb[i] == b[i - a.len()]);
        } else if i < a.len() + b.len() + c.len() {
            assert(nb[i] == c[i - a.len() - b.len()]);
        } else {
            assert(nb[i] == d[i - a.len() - b.len() - c.len()]);
        }
    }
    assert forall|q: (usize, usize)|
        image.in_bounds(q.0 as int, q.1 as int) && #[trigger] adjacent(t, q) implies contains_point(
        nb,
        q,
    ) by {
        if q.1 == t.1 && q.0 + 1 == t.0 {
            assert(nb[0] == q);
        } else if q.1 == t.1 && t.0 + 1 == q.0 {
            assert(nb[a.len() as int] == q);
        } else if q.0 == t.0 && q.1 + 1 == t.1 {
            assert(nb[(a.len() + b.len()) as int] == q);
        } else {
            assert(nb[(a.len() + b.len() + c.len()) as int] == q);
        }
    }
}

/// Appending a coordinate next to an existing member keeps a sequence linked.
pub proof fn lemma_linked_push(comp: Seq<(usize, usize)>, t: (usize, usize), pi: int)
    requires
        linked(comp),
        0 <= pi < comp.len(),
        adjacent(comp[pi], t),
    ensures
        linked(comp.push(t)),
{
    let nc = comp.push(t);
    assert forall|j: int| 0 < j < nc.len() implies #[trigger] linked_at(nc, j) by {
        if j == comp.len() {
            assert(nc[pi] == comp[pi]);
            assert(adjacent(nc[pi], nc[j]));
        } else {
            assert(nc[j] == comp[j]);
            assert(linked_at(comp, j));
            let i = choose|i: int| 0 <= i < j && #[trigger] adjacent(comp[i], comp[j]);
            assert(nc[i] == comp[i]);
            assert(adjacent(nc[i], nc[j]));
        }
    }
}

/// Members are foreground, were unvisited at the start and are visited now.
pub open spec fn members_ok(
    image: &Image,
    vis0: Seq<bool>,
    vis: Seq<bool>,
    comp: Seq<(usize, usize)>,
) -> bool {
    forall|j: int|
        0 <= j < comp.len() ==> #[trigger] image.is_foreground(comp[j]) && !visited_at(
            vis0,
            image.width as int,
            comp[j],
        ) && visited_at(vis, image.width as int, comp[j])
}

/// A foreground neighbour of a member is visited or still waiting on the stack.
pub open spec fn frontier_ok(
    image: &Image,
    vis: Seq<bool>,
    comp: Seq<(usize, usize)>,
    stack: Seq<(usize, usize)>,
) -> bool {
    forall|j: int, q: (usize, usize)|
        0 <= j < comp.len() && image.is_foreground(q) && #[trigger] adjacent(comp[j], q)
            ==> visited_at(vis, image.width as int, q) || contains_point(stack, q)
}

/// The visited flags are the starting ones plus the members.
pub open spec fn cover_ok(
    image: &Image,
    vis0: Seq<bool>,
    vis: Seq<bool>,
    comp: Seq<(usize, usize)>,
) -> bool {
    forall|p: (usize, usize)|
        image.in_bounds(p.0 as int, p.1 as int) ==> (#[trigger] visited_at(
            vis,
            image.width as int,
            p,
        ) <==> visited_at(vis0, image.width as int, p) || contains_point(comp, p))
}

/// Stack entries lie in the image.
pub open spec fn stack_ok(image: &Image, stack: Seq<(usize, usize)>) -> bool {
    forall|i: int|
        0 <= i < stack.len() ==> #[trigger] image.in_bounds(stack[i].0 as int, stack[i].1 as int)
}

/// Once the region is non-empty, each stack entry is next to the member
/// that pushed it.
pub open spec fn parents_ok(
    comp: Seq<(usize, usize)>,
    stack: Seq<(usize, usize)>,
    parent: Seq<int>,
) -> bool {
    &&& parent.len() == stack.len()
    &&& comp.len() > 0 ==> forall|i: int|
        0 <= i < stack.len() ==> 0 <= #[trigger] parent[i] < comp.len() && adjacent(
            comp[parent[i]],
            stack[i],
        )
}

/// Before the first pixel is taken in only the start waits on the stack;
/// afterwards the start is the first member.
pub open spec fn start_ok(
    vis0: Seq<bool>,
    vis: Seq<bool>,
    comp: Seq<(usize, usize)>,
    stack: Seq<(usize, usize)>,
    start: (usize, usize),
) -> bool {
    &&& comp.len() == 0 ==> stack == seq![start] && vis == vis0
    &&& comp.len() > 0 ==> comp[0] == start
}

/// Everything the fill keeps true from one step to the next.
pub open spec fn fill_ok(
    image: &Image,
    vis0: Seq<bool>,
    vis: Seq<bool>,
    comp: Seq<(usize, usize)>,
    stack: Seq<(usize, usize)>,
    parent: Seq<int>,
    start: (usize, usize),
) -> bool {
    &&& vis.len() == image.width * image.height
    &&& vis0.len() == image.width * image.height
    &&& members_ok(image, vis0, vis, comp)
    &&& frontier_ok(image, vis, comp, stack)
    &&& cover_ok(image, vis0, vis, comp)
    &&& stack_ok(image, stack)
    &&& parents_ok(comp, stack, parent)
    &&& start_ok(vis0, vis, comp, stack, start)
    &&& all_distinct(comp)
    &&& linked(comp)
}

/// A popped entry that is visited already or background changes nothing.
proof fn lemma_fill_reject(
    image: &Image,
    vis0: Seq<bool>,
    vis: Seq<bool>,
    comp: Seq<(usize, usize)>,
    stack: Seq<(usize, usize)>,
    parent: Seq<int>,
    start: (usize, usize),
)
    requires
        fill_ok(image, vis0, vis, comp, stack, parent, start),
        image.is_foreground(start),
        !visited_at(vis0, image.width as int, start),
        stack.len() > 0,
        visited_at(vis, image.width as int, stack.last()) || !image.is_foreground(stack.last()),
    ensures
        comp.len() > 0,
        fill_ok(image, vis0, vis, comp, stack.drop_last(), parent.drop_last(), start),
{
    let w = image.width as int;
    let t = stack.last();
    let ns = stack.drop_last();
    if comp.len() == 0 {
        assert(t == start);
        assert(false);
    }
    assert forall|j: int, q: (usize, usize)|
        0 <= j < comp.len() && image.is_foreground(q) && #[trigger] adjacent(comp[j], q) implies visited_at(
        vis,
        w,
        q,
    ) || contains_point(ns, q) by {
        if !visited_at(vis, w, q) {
            let i = choose|i: int| 0 <= i < stack.len() && stack[i] == q;
            if i < ns.len() {
                assert(ns[i] == q);
            }
        }
    }
    assert forall|i: int| 0 <= i < ns.len() implies #[trigger] image.in_bounds(
        ns[i].0 as int,
        ns[i].1 as int,
    ) by {
        assert(ns[i] == stack[i]);
        assert(image.in_bounds(stack[i].0 as int, stack[i].1 as int));
    }
    let np = parent.drop_last();
    assert forall|i: int| 0 <= i < ns.len() implies 0 <= #[trigger] np[i] < comp.len() && adjacent(
        comp[np[i]],
        ns[i],
    ) by {
        assert(np[i] == parent[i]);
        assert(ns[i] == stack[i]);
    }
}

/// Taking in the popped pixel `t` and pushing its in-bounds neighbours
/// keeps every part of the fill invariant.
proof fn lemma_fill_accept(
    image: &Image,
    vis0: Seq<bool>,
    vis: Seq<bool>,
    comp: Seq<(usize, usize)>,
    stack: Seq<(usize, usize)>,
    parent: Seq<int>,
    start: (usize, usize),
)
    requires
        image.wf(),
        fill_ok(image, vis0, vis, comp, stack, parent, start),
        stack.len() > 0,
        image.is_foreground(stack.last()),
        !visited_at(vis, image.width as int, stack.last()),
    ensures
        ({
            let t = stack.last();
            let w = image.width as int;
            let nb = neighbours(w, image.height as int, t);
            fill_ok(
                image,
                vis0,
                vis.update(t.1 * w + t.0, true),
                comp.push(t),
                stack.drop_last() + nb,
                parent.drop_last() + Seq::new(nb.len(), |i: int| comp.len() as int),
                start,
            )
        }),
{
    let t = stack.last();
    let w = image.width as int;
    let h = image.height as int;
    let nb = neighbours(w, h, t);
    let nv = vis.update(t.1 * w + t.0, true);
    let nc = comp.push(t);
    let ns = stack.drop_last() + nb;
    let np = parent.drop_last() + Seq::new(nb.len(), |i: int| comp.len() as int);
    let me = comp.len() as int;
    lemma_neighbours(image, t);
    lemma_pixel_number(w, h, t.0 as int, t.1 as int);
    assert(stack_ok(image, ns)) by {
        assert forall|i: int| 0 <= i < ns.len() implies #[trigger] image.in_bounds(
            ns[i].0 as int,
            ns[i].1 as int,
        ) by {
            if i < stack.len() - 1 {
                assert(ns[i] == stack[i]);
                assert(image.in_bounds(stack[i].0 as int, stack[i].1 as int));
            } else {
                assert(ns[i] == nb[i - (stack.len() - 1)]);
            }
        }
    }
    assert(start_ok(vis0, nv, nc, ns, start)) by {
        if comp.len() == 0 {
            assert(stack == seq![start]);
            assert(nc[0] == t);
        } else {
            assert(nc[0] == comp[0]);
        }
    }
    assert(parents_ok(nc, ns, np)) by {
        assert forall|i: int| 0 <= i < ns.len() implies 0 <= #[trigger] np[i] < nc.len() && adjacent(
            nc[np[i]],
            ns[i],
        ) by {
            if i < stack.len() - 1 {
                assert(ns[i] == stack[i]);
                assert(np[i] == parent[i]);
                if comp.len() == 0 {
                    assert(stack.len() == 1);
                }
                assert(nc[parent[i]] == comp[parent[i]]);
            } else {
                assert(ns[i] == nb[i - (stack.len() - 1)]);
                assert(np[i] == me);
                assert(nc[me] == t);
            }
        }
    }
    // Visited flags only ever turn on.
    assert forall|p: (usize, usize)|
        image.in_bounds(p.0 as int, p.1 as int) && visited_at(vis, w, p) implies #[trigger] visited_at(
        nv,
        w,
        p,
    ) by {
        lemma_pixel_number(w, h, p.0 as int, p.1 as int);
    }
    assert(visited_at(nv, w, t));
    assert(members_ok(image, vis0, nv, nc)) by {
        assert(!visited_at(vis0, w, t));
        assert forall|j: int| 0 <= j < nc.len() implies #[trigger] image.is_foreground(nc[j])
            && !visited_at(vis0, w, nc[j]) && visited_at(nv, w, nc[j]) by {
            if j < me {
                assert(nc[j] == comp[j]);
                assert(image.is_foreground(comp[j]));
            }
        }
    }
    assert(all_distinct(nc)) by {
        assert forall|i: int, j: int| 0 <= i < j < nc.len() implies #[trigger] nc[i] != #[trigger] nc[j] by {
            if j == me {
                assert(nc[i] == comp[i]);
                assert(image.is_foreground(comp[i]));
            } else {
                assert(nc[i] == comp[i]);
                assert(nc[j] == comp[j]);
            }
        }
    }
    if comp.len() > 0 {
        let pi = parent[stack.len() - 1];
        assert(0 <= pi < comp.len() && adjacent(comp[pi], stack[stack.len() - 1]));
        lemma_linked_push(comp, t, pi);
    } else {
        assert(nc.len() == 1);
    }
    assert(linked(nc));
    assert(cover_ok(image, vis0, nv, nc)) by {
        assert forall|p: (usize, usize)| image.in_bounds(p.0 as int, p.1 as int) implies (
        #[trigger] visited_at(nv, w, p) <==> visited_at(vis0, w, p) || contains_point(nc, p)) by {
            lemma_pixel_number(w, h, p.0 as int, p.1 as int);
            assert(visited_at(vis, w, p) <==> visited_at(vis0, w, p) || contains_point(comp, p));
            if p.1 * w + p.0 == t.1 * w + t.0 {
                lemma_pixel_number_injective(w, p.0 as int, p.1 as int, t.0 as int, t.1 as int);
                assert(nc[me] == p);
            } else {
                assert(visited_at(nv, w, p) == visited_at(vis, w, p));
                if contains_point(comp, p) {
                    let j = choose|j: int| 0 <= j < comp.len() && comp[j] == p;
                    assert(nc[j] == p);
                }
                if contains_point(nc, p) {
                    let j = choose|j: int| 0 <= j < nc.len() && nc[j] == p;
                    assert(j != me);
                    assert(comp[j] == p);
                }
            }
        }
    }
    assert(frontier_ok(image, nv, nc, ns)) by {
        assert forall|j: int, q: (usize, usize)|
            0 <= j < nc.len() && image.is_foreground(q) && #[trigger] adjacent(nc[j], q) implies visited_at(
            nv,
            w,
            q,
        ) || contains_point(ns, q) by {
            if j == me {
                assert(contains_point(nb, q));
                let i = choose|i: int| 0 <= i < nb.len() && nb[i] == q;
                assert(ns[stack.len() - 1 + i] == q);
            } else {
                assert(nc[j] == comp[j]);
                if visited_at(vis, w, q) {
                    assert(visited_at(nv, w, q));
                } else {
                    let i = choose|i: int| 0 <= i < stack.len() && stack[i] == q;
                    if i == stack.len() - 1 {
                        assert(visited_at(nv, w, q));
                    } else {
                        assert(ns[i] == q);
                    }
                }
            }
        }
    }
}

/// With the stack empty the region is closed, and the visited flags stay
/// closed under foreground adjacency.
proof fn lemma_fill_done(
    image: &Image,
    vis0: Seq<bool>,
    vis: Seq<bool>,
    comp: Seq<(usize, usize)>,
    parent: Seq<int>,
    start: (usize, usize),
)
    requires
        fill_ok(image, vis0, vis, comp, Seq::empty(), parent, start),
        image.visited_closed(vis0),
    ensures
        comp.len() > 0,
        closed_region(image, comp),
        image.visited_closed(vis),
{
    let w = image.width as int;
    if comp.len() == 0 {
        assert(Seq::<(usize, usize)>::empty() != seq![start]);
    }
    assert forall|j: int, q: (usize, usize)|
        0 <= j < comp.len() && image.is_foreground(q) && #[trigger] adjacent(comp[j], q) implies contains_point(
        comp,
        q,
    ) by {
        assert(visited_at(vis, w, q));
        if !contains_point(comp, q) {
            assert(visited_at(vis0, w, q));
            assert(image.is_foreground(comp[j]));
            assert(adjacent(q, comp[j]));
            assert(visited_at(vis0, w, comp[j]));
        }
    }
    assert forall|a: (usize, usize), b: (usize, usize)|
        #![trigger visited_at(vis, image.width as int, a), adjacent(a, b)]
        image.in_bounds(a.0 as int, a.1 as int) && visited_at(vis, image.width as int, a)
            && image.is_foreground(b) && adjacent(a, b) implies visited_at(
        vis,
        image.width as int,
        b,
    ) by {
        if visited_at(vis0, w, a) {
            assert(visited_at(vis0, w, b));
        } else {
            let j = choose|j: int| 0 <= j < comp.len() && comp[j] == a;
            assert(adjacent(comp[j], b));
            assert(contains_point(comp, b));
        }
    }
}

/// Grows the 4-connected foreground region around `(start_x, start_y)`,
/// marking each pixel it takes in as visited. The region is returned in
/// the order its pixels were reached, which starts at the given pixel.
fn flood_fill(image: &Image, visited: &mut Vec<bool>, start_x: usize, start_y: usize) -> (component: Vec<(usize, usize)>)
    requires
        image.wf(),
        image.channels >= 1,
        old(visited)@.len() == image.width * image.height,
        image.is_foreground((start_x, start_y)),
        !visited_at(old(visited)@, image.width as int, (start_x, start_y)),
        image.visited_closed(old(visited)@),
    ensures
        final(visited)@.len() == old(visited)@.len(),
        component@.len() > 0,
        component@[0] == (start_x, start_y),
        members_ok(image, old(visited)@, final(visited)@, component@),
        cover_ok(image, old(visited)@, final(visited)@, component@),
        all_distinct(component@),
        linked(component@),
        closed_region(image, component@),
        image.visited_closed(final(visited)@),
{
    let ghost w = image.width as int;
    let ghost h = image.height as int;
    let ghost vis0 = visited@;
    let ghost start = (start_x, start_y);
    let mut component: Vec<(usize, usize)> = Vec::new();
    let mut stack: Vec<(usize, usize)> = Vec::new();
    stack.push((start_x, start_y));
    let ghost mut parent: Seq<int> = seq![0int];
    proof {
        lemma_count_true_bound(visited@);
        assert(stack@ =~= seq![start]);
        assert(cover_ok(image, vis0, visited@, component@)) by {
            assert forall|p: (usize, usize)| image.in_bounds(p.0 as int, p.1 as int) implies (
            #[trigger] visited_at(visited@, w, p) <==> visited_at(vis0, w, p) || contains_point(
                component@,
                p,
            )) by {}
        }
    }
    while stack.len() > 0
        invariant
            image.wf(),
            image.channels >= 1,
            w == image.width,
            h == image.height,
            count_true(visited@) <= w * h,
            image.is_foreground(start),
            !visited_at(vis0, w, start),
            image.visited_closed(vis0),
            start == (start_x, start_y),
            fill_ok(image, vis0, visited@, component@, stack@, parent, start),
        decreases w * h - count_true(visited@), stack@.len(),
    {
        let ghost stack0 = stack@;
        let ghost parent0 = parent;
        let ghost vis1 = visited@;
        let ghost comp0 = component@;
        proof {
            assert(image.in_bounds(
                stack0[stack0.len() - 1].0 as int,
                stack0[stack0.len() - 1].1 as int,
            ));
        }
        let (x, y) = stack.pop().unwrap();
        proof {
            parent = parent.drop_last();
            assert(stack@ =~= stack0.drop_last());
            assert((x, y) == stack0.last());
            lemma_pixel_number(w, h, x as int, y as int);
            lemma_pixel_offset_bounds(w, h, image.channels as int, y * w + x);
        }
        if x >= image.width || y >= image.height || visited[y * image.width + x] {
            proof {
                lemma_fill_reject(image, vis0, vis1, comp0, stack0, parent0, start);
            }
            continue;
        }
        let pixel = image.get_pixel(x, y).unwrap();
        if pixel[0] == 0 {
            proof {
                lemma_fill_reject(image, vis0, vis1, comp0, stack0, parent0, start);
            }
            continue;
        }
        proof {
            lemma_count_true_set(visited@, y * w + x);
            lemma_count_true_bound(visited@.update(y * w + x, true));
            lemma_fill_accept(image, vis0, vis1, comp0, stack0, parent0, start);
        }
        visited.set(y * image.width + x, true);
        component.push((x, y));
        let ghost base = stack@;
        if x > 0 {
            stack.push((x - 1, y));
        }
        if x < image.width - 1 {
            stack.push((x + 1, y));
        }
        if y > 0 {
            stack.push((x, y - 1));
        }
        if y < image.height - 1 {
            stack.push((x, y + 1));
        }
        proof {
            let nb = neighbours(w, h, (x, y));
            assert(stack@ =~= base + nb);
            parent = parent0.drop_last() + Seq::new(nb.len(), |i: int| comp0.len() as int);
        }
    }
    proof {
        assert(stack@ =~= Seq::<(usize, usize)>::empty());
        lemma_fill_done(image, vis0, visited@, component@, parent, start);
    }
    component
}

/// `p` belongs to one of the regions.
pub open spec fn in_some(comps: Seq<Seq<(usize, usize)>>, p: (usize, usize)) -> bool {
    exists|c: int| 0 <= c < comps.len() && #[trigger] contains_point(comps[c], p)
}

/// What the component scan keeps true: each region found so far is a
/// non-empty, repetition-free, 4-connected region closed under foreground
/// adjacency; regions share no pixel; and the visited flags are exactly
/// the pixels of the regions.
pub open spec fn components_ok(image: &Image, vis: Seq<bool>, comps: Seq<Seq<(usize, usize)>>) -> bool {
    &&& vis.len() == image.width * image.height
    &&& image.visited_closed(vis)
    &&& forall|c: int|
        0 <= c < comps.len() ==> #[trigger] comps[c].len() > 0 && all_distinct(comps[c])
            && linked(comps[c]) && closed_region(image, comps[c])
    &&& forall|c: int, j: int|
        0 <= c < comps.len() && 0 <= j < comps[c].len() ==> image.is_foreground(
            #[trigger] comps[c][j],
        ) && visited_at(vis, image.width as int, comps[c][j])
    &&& forall|c1: int, c2: int, p: (usize, usize)|
        #![trigger contains_point(comps[c1], p), contains_point(comps[c2], p)]
        0 <= c1 < c2 < comps.len() && contains_point(comps[c1], p) ==> !contains_point(
            comps[c2],
            p,
        )
    &&& forall|p: (usize, usize)|
        image.in_bounds(p.0 as int, p.1 as int) ==> (#[trigger] visited_at(
            vis,
            image.width as int,
            p,
        ) <==> in_some(comps, p))
}

/// Adding the region a fill just returned keeps the scan invariant.
proof fn lemma_add_component(
    image: &Image,
    vis: Seq<bool>,
    vis2: Seq<bool>,
    comps: Seq<Seq<(usize, usize)>>,
    comp: Seq<(usize, usize)>,
)
    requires
        components_ok(image, vis, comps),
        vis2.len() == vis.len(),
        comp.len() > 0,
        members_ok(image, vis, vis2, comp),
        cover_ok(image, vis, vis2, comp),
        all_distinct(comp),
        linked(comp),
        closed_region(image, comp),
        image.visited_closed(vis2),
    ensures
        components_ok(image, vis2, comps.push(comp)),
{
    let w = image.width as int;
    let nc = comps.push(comp);
    let k = comps.len() as int;
    assert forall|c: int| 0 <= c < nc.len() implies #[trigger] nc[c].len() > 0 && all_distinct(
        nc[c],
    ) && linked(nc[c]) && closed_region(image, nc[c]) by {
        if c < k {
            assert(nc[c] == comps[c]);
        }
    }
    assert forall|c: int, j: int| 0 <= c < nc.len() && 0 <= j < nc[c].len() implies image.is_foreground(
        #[trigger] nc[c][j],
    ) && visited_at(vis2, w, nc[c][j]) by {
        if c < k {
            assert(nc[c] == comps[c]);
            assert(image.is_foreground(comps[c][j]));
            let p = comps[c][j];
            assert(visited_at(vis, w, p));
            assert(contains_point(comp, p) || true);
        } else {
            assert(nc[c] == comp);
            assert(image.is_foreground(comp[j]));
        }
    }
    assert forall|c1: int, c2: int, p: (usize, usize)|
        #![trigger contains_point(nc[c1], p), contains_point(nc[c2], p)]
        0 <= c1 < c2 < nc.len() && contains_point(nc[c1], p) implies !contains_point(nc[c2], p) by {
        assert(nc[c1] == comps[c1]);
        if c2 < k {
            assert(nc[c2] == comps[c2]);
        } else {
            assert(nc[c2] == comp);
            let j = choose|j: int| 0 <= j < comps[c1].len() && comps[c1][j] == p;
            assert(image.is_foreground(comps[c1][j]));
            assert(visited_at(vis, w, p));
            if contains_point(comp, p) {
                let i = choose|i: int| 0 <= i < comp.len() && comp[i] == p;
                assert(image.is_foreground(comp[i]));
            }
        }
    }
    assert forall|p: (usize, usize)| image.in_bounds(p.0 as int, p.1 as int) implies (
    #[trigger] visited_at(vis2, w, p) <==> in_some(nc, p)) by {
        assert(visited_at(vis, w, p) <==> in_some(comps, p));
        if in_some(comps, p) {
            let c = choose|c: int| 0 <= c < comps.len() && #[trigger] contains_point(comps[c], p);
            assert(nc[c] == comps[c]);
            assert(contains_point(nc[c], p));
        }
        if contains_point(comp, p) {
            assert(nc[k] == comp);
            assert(contains_point(nc[k], p));
        }
        if in_some(nc, p) {
            let c = choose|c: int| 0 <= c < nc.len() && #[trigger] contains_point(nc[c], p);
            if c < k {
                assert(nc[c] == comps[c]);
                assert(in_some(comps, p));
            } else {
                assert(nc[c] == comp);
            }
        }
    }
}

/// The 4-connected regions of pixels whose first byte is non-zero, each
/// listed from the pixel where a row-major scan first meets it.
pub fn find_connected_components(binary_image: &Image) -> (components: Vec<Vec<(usize, usize)>>)
    requires
        binary_image.wf(),
        binary_image.width * binary_image.height > 0 ==> binary_image.channels >= 1,
    ensures
        forall|c: int|
            0 <= c < components@.len() ==> #[trigger] components@[c]@.len() > 0 && all_distinct(
                components@[c]@,
            ) && linked(components@[c]@) && closed_region(binary_image, components@[c]@),
        forall|c: int, j: int|
            0 <= c < components@.len() && 0 <= j < components@[c]@.len()
                ==> binary_image.is_foreground(#[trigger] components@[c]@[j]),
        forall|c1: int, c2: int, p: (usize, usize)|
            #![trigger contains_point(components@[c1]@, p), contains_point(components@[c2]@, p)]
            0 <= c1 < c2 < components@.len() && contains_point(components@[c1]@, p)
                ==> !contains_point(components@[c2]@, p),
        forall|p: (usize, usize)|
            #[trigger] binary_image.is_foreground(p) ==> exists|c: int|
                0 <= c < components@.len() && #[trigger] contains_point(components@[c]@, p),
{
    let image = binary_image;
    let w = image.width;
    let h = image.height;
    let n = w * h;
    let mut visited: Vec<bool> = Vec::new();
    let mut i: usize = 0;
    while i < n
        invariant
            i <= n,
            visited@.len() == i,
            forall|j: int| 0 <= j < i ==> !visited@[j],
        decreases n - i,
    {
        visited.push(false);
        i = i + 1;
    }
    let mut components: Vec<Vec<(usize, usize)>> = Vec::new();
    let ghost mut gcomps: Seq<Seq<(usize, usize)>> = Seq::empty();
    proof {
        assert forall|p: (usize, usize)| image.in_bounds(p.0 as int, p.1 as int) implies (
        #[trigger] visited_at(visited@, w as int, p) <==> in_some(gcomps, p)) by {
            lemma_pixel_number(w as int, h as int, p.0 as int, p.1 as int);
        }
        assert forall|a: (usize, usize), b: (usize, usize)|
            #![trigger visited_at(visited@, image.width as int, a), adjacent(a, b)]
            image.in_bounds(a.0 as int, a.1 as int) && visited_at(visited@, image.width as int, a)
                && image.is_foreground(b) && adjacent(a, b) implies visited_at(
            visited@,
            image.width as int,
            b,
        ) by {
            lemma_pixel_number(w as int, h as int, a.0 as int, a.1 as int);
        }
    }
    let mut y: usize = 0;
    while y < h
        invariant
            image.wf(),
            w == image.width,
            h == image.height,
            n == w * h,
            y <= h,
            n > 0 ==> image.channels >= 1,
            components_ok(image, visited@, gcomps),
            components@.len() == gcomps.len(),
            forall|c: int| 0 <= c < gcomps.len() ==> #[trigger] components@[c]@ == gcomps[c],
            forall|p: (usize, usize)|
                #[trigger] image.is_foreground(p) && p.1 < y ==> visited_at(visited@, w as int, p),
        decreases h - y,
    {
        let mut x: usize = 0;
        while x < w
            invariant
                image.wf(),
                w == image.width,
                h == image.height,
                n == w * h,
                y < h,
                x <= w,
                n > 0 ==> image.channels >= 1,
                components_ok(image, visited@, gcomps),
                components@.len() == gcomps.len(),
                forall|c: int| 0 <= c < gcomps.len() ==> #[trigger] components@[c]@ == gcomps[c],
                forall|p: (usize, usize)|
                    #[trigger] image.is_foreground(p) && (p.1 < y || (p.1 == y && p.0 < x))
                        ==> visited_at(visited@, w as int, p),
            decreases w - x,
        {
            proof {
                lemma_pixel_number(w as int, h as int, x as int, y as int);
                lemma_pixel_offset_bounds(w as int, h as int, image.channels as int, y * w + x);
            }
            if !visited[y * w + x] {
                if let Some(pixel) = image.get_pixel(x, y) {
                    if pixel[0] > 0 {
                        let ghost vis = visited@;
                        assert(image.is_foreground((x, y)));
                        let component = flood_fill(image, &mut visited, x, y);
                        proof {
                            lemma_add_component(image, vis, visited@, gcomps, component@);
                            gcomps = gcomps.push(component@);
                            assert forall|p: (usize, usize)|
                                #[trigger] image.is_foreground(p) && (p.1 < y || (p.1 == y && p.0
                                    < x)) implies visited_at(visited@, w as int, p) by {
                                assert(visited_at(vis, w as int, p));
                            }
                        }
                        if component.len() > 0 {
                            components.push(component);
                        }
                    }
                }
            }
            x = x + 1;
        }
        y = y + 1;
    }
    proof {
        assert forall|p: (usize, usize)| #[trigger] image.is_foreground(p) implies exists|c: int|
            0 <= c < components@.len() && #[trigger] contains_point(components@[c]@, p) by {
            assert(visited_at(visited@, w as int, p));
            let c = choose|c: int| 0 <= c < gcomps.len() && #[trigger] contains_point(gcomps[c], p);
            assert(components@[c]@ == gcomps[c]);
        }
    }
    components
}

} // verus!
