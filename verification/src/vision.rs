//! Kinds of screen elements and the errors of screen analysis.

use vstd::prelude::*;
use vstd::string::StringExecFns;

verus! {

/// What a detected screen element is.
#[derive(Debug, Clone, Copy, PartialEq, Eq, Structural)]
pub enum ElementType {
    Button,
    TextBox,
    Label,
    Menu,
    Window,
    Icon,
    Image,
    Unknown,
}

impl ElementType {
    /// The name an element type is shown with.
    pub open spec fn spec_name(self) -> Seq<char> {
        match self {
            ElementType::Button => "Button"@,
            ElementType::TextBox => "TextBox"@,
            ElementType::Label => "Label"@,
            ElementType::Menu => "Menu"@,
            ElementType::Window => "Window"@,
            ElementType::Icon => "Icon"@,
            ElementType::Image => "Image"@,
            ElementType::Unknown => "Unknown"@,
        }
    }

    /// The name an element type is shown with.
    pub fn name(&self) -> (s: &'static str)
        ensures
            s@ == self.spec_name(),
    {
        match self {
            ElementType::Button => "Button",
            ElementType::TextBox => "TextBox",
            ElementType::Label => "Label",
            ElementType::Menu => "Menu",
            ElementType::Window => "Window",
            ElementType::Icon => "Icon",
            ElementType::Image => "Image",
            ElementType::Unknown => "Unknown",
        }
    }

    /// The name as an owned string.
    pub fn to_display_string(&self) -> (s: String)
        ensures
            s@ == self.spec_name(),
    {
        String::from_str(self.name())
    }
}

/// Why screen analysis failed.
#[derive(Debug)]
pub enum VisionError {
    ImageProcessingError(String),
    AnalysisError(String),
    CacheError(String),
}

impl VisionError {
    /// The text the error is shown with.
    pub open spec fn spec_message(&self) -> Seq<char> {
        match self {
            VisionError::ImageProcessingError(m) => "Image processing error: "@ + m@,
            VisionError::AnalysisError(m) => "Analysis error: "@ + m@,
            VisionError::CacheError(m) => "Cache error: "@ + m@,
        }
    }

    /// The text the error is shown with.
    pub fn message(&self) -> (s: String)
        ensures
            s@ == self.spec_message(),
    {
        let (prefix, m) = match self {
            VisionError::ImageProcessingError(m) => ("Image processing error: ", m),
            VisionError::AnalysisError(m) => ("Analysis error: ", m),
            VisionError::CacheError(m) => ("Cache error: ", m),
        };
        let mut s = String::from_str(prefix);
        s.append(m.as_str());
        s
    }
}

/// The detector of drop-down and context menus; it recognises none yet.
pub struct MenuDetector {}

impl MenuDetector {
    /// A menu detector.
    pub fn new() -> (d: Self) {
        MenuDetector {}
    }

    /// The menus found on `image`: none, as menus are not recognised yet.
    pub fn detect(&self, image: &crate::image::Image) -> (r: Vec<crate::ai::ScreenElement>)
        ensures
            r@.len() == 0,
    {
        Vec::new()
    }
}

/// The sampling step over `n` pixels: a tenth of them, at least 1.
pub open spec fn sample_step(n: int) -> int {
    if n / 10 >= 1 {
        n / 10
    } else {
        1
    }
}

/// The first byte of pixel `(x, y)` of `img`.
pub open spec fn first_byte(img: &crate::image::Image, x: int, y: int) -> u8 {
    img.data@[(y * img.width + x) * img.channels]
}

/// One hashing step: the byte mixed in, then a wrapping multiply by 31.
pub open spec fn hash_step(h: u64, b: u8) -> u64 {
    (h ^ (b as u64)).wrapping_mul(31)
}

/// The hash after mixing in the first `k` samples of row `y` (columns
/// `0, s, 2s, ...`) starting from `h`.
pub open spec fn hash_row(img: &crate::image::Image, h: u64, y: int, s: int, k: int) -> u64
    decreases k,
{
    if k <= 0 {
        h
    } else {
        hash_step(hash_row(img, h, y, s, k - 1), first_byte(img, (k - 1) * s, y))
    }
}

/// The number of samples along `n` pixels taken every `s`.
pub open spec fn sample_count(n: int, s: int) -> int {
    (n + s - 1) / s
}

/// The hash after the first `j` sampled rows (rows `0, t, 2t, ...`).
pub open spec fn hash_rows(img: &crate::image::Image, h: u64, j: int) -> u64
    decreases j,
{
    if j <= 0 {
        h
    } else {
        let s = sample_step(img.width as int);
        let t = sample_step(img.height as int);
        hash_row(img, hash_rows(img, h, j - 1), (j - 1) * t, s, sample_count(img.width as int, s))
    }
}

/// The content hash of `img`: its width and height (shifted 16 bits)
/// combined, then the first byte of every tenth pixel of every tenth row
/// mixed in, row by row.
pub open spec fn image_hash_of(img: &crate::image::Image) -> u64 {
    let h0 = (img.width as u64) ^ ((img.height as u64) << 16u64);
    hash_rows(img, h0, sample_count(img.height as int, sample_step(img.height as int)))
}

proof fn lemma_sample_count(n: int, s: int, k: int)
    requires
        s >= 1,
        n >= 0,
        k >= 0,
    ensures
        k * s < n <==> k < sample_count(n, s),
{
    assert(k < (n + s - 1) / s <==> k * s < n) by (nonlinear_arith)
        requires
            s >= 1,
            n >= 0,
            k >= 0,
    ;
}

/// The content hash the vision cache keys its results by.
pub fn calculate_image_hash(img: &crate::image::Image) -> (h: u64)
    requires
        img.wf(),
        img.channels >= 1,
    ensures
        h == image_hash_of(img),
{
    let w = img.width;
    let ht = img.height;
    let s = if w / 10 >= 1 { w / 10 } else { 1 };
    let t = if ht / 10 >= 1 { ht / 10 } else { 1 };
    let mut hash: u64 = (w as u64) ^ ((ht as u64) << 16u64);
    let ghost h0 = hash;
    let mut y: usize = 0;
    let ghost mut j: int = 0;
    proof {
        lemma_sample_count(ht as int, t as int, 0);
    }
    while y < ht
        invariant
            img.wf(),
            img.channels >= 1,
            w == img.width,
            ht == img.height,
            s == sample_step(w as int),
            t == sample_step(ht as int),
            j >= 0,
            y as int == (if j * t < ht { j * t } else { ht as int }),
            hash == hash_rows(img, h0, j),
            y < ht ==> j < sample_count(ht as int, t as int),
            y >= ht ==> j == sample_count(ht as int, t as int),
        decreases ht - y,
    {
        proof {
            lemma_sample_count(ht as int, t as int, j);
        }
        let ghost row_start = hash;
        let mut x: usize = 0;
        let ghost mut k: int = 0;
        while x < w
            invariant
                img.wf(),
                img.channels >= 1,
                w == img.width,
                ht == img.height,
                y < ht,
                s == sample_step(w as int),
                k >= 0,
                x as int == (if k * s < w { k * s } else { w as int }),
                hash == hash_row(img, row_start, y as int, s as int, k),
                x >= w ==> k == sample_count(w as int, s as int),
            decreases w - x,
        {
            proof {
                lemma_sample_count(w as int, s as int, k);
                lemma_sample_count(w as int, s as int, k + 1);
            }
            assert((y * w + x) * img.channels < w * ht * img.channels) by (nonlinear_arith)
                requires
                    y < ht,
                    x < w,
                    img.channels >= 1,
            ;
            assert((y * w + x) * img.channels <= usize::MAX) by {
                assert(w * ht * img.channels <= usize::MAX);
            }
            assert(y * w + x <= (y * w + x) * img.channels) by (nonlinear_arith)
                requires
                    img.channels >= 1,
                    y * w + x >= 0,
            ;
            let idx = (y * w + x) * img.channels;
            let b = img.data[idx];
            hash = (hash ^ (b as u64)).wrapping_mul(31);
            proof {
                k = k + 1;
            }
            assert(x + s == k * s) by (nonlinear_arith)
                requires
                    x == (k - 1) * s,
            ;
            if w - x <= s {
                x = w;
            } else {
                x = x + s;
            }
        }
        proof {
            lemma_sample_count(ht as int, t as int, j + 1);
            j = j + 1;
        }
        assert(y + t == j * t) by (nonlinear_arith)
            requires
                y == (j - 1) * t,
        ;
        if ht - y <= t {
            y = ht;
        } else {
            y = y + t;
        }
    }
    hash
}

} // verus!
