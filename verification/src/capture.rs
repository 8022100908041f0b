//! Screen capture: the capture settings, frame pacing, the synthetic
//! screen used where no platform capture is wired in, and region crops.

use vstd::prelude::*;
use vstd::string::StringExecFns;
use crate::image::{Image, lemma_zero_pixels, zero_pixel};

verus! {

/// `img` is the synthetic 1920 x 1080 screen with three channels.
pub open spec fn is_synthetic_screen(img: Image) -> bool {
    &&& img.wf()
    &&& img.width == 1920
    &&& img.height == 1080
    &&& img.channels == 3
    &&& forall|x: int, y: int| 0 <= x < 1920 && 0 <= y < 1080 ==> #[trigger] img.pixel(x, y) == pattern_pixel(x, y, 1920, 1080)
}

/// The synthetic screen's pixel at `(x, y)`: the pattern on the 1920 x
/// 1080 screen, zero bytes off it.
pub open spec fn screen_pixel(x: int, y: int) -> Seq<u8> {
    if 0 <= x < 1920 && 0 <= y < 1080 {
        pattern_pixel(x, y, 1920, 1080)
    } else {
        zero_pixel(3)
    }
}

/// `img` is the capture of `region` of the synthetic screen: as large as
/// the region, three channels, its pixel `(i, j)` the screen's pixel at the
/// region's corner (negative coordinates counted as 0) moved by `(i, j)`.
pub open spec fn is_region_capture(img: Image, region: CaptureRegion) -> bool {
    let x0 = if region.x < 0 { 0 } else { region.x as int };
    let y0 = if region.y < 0 { 0 } else { region.y as int };
    &&& img.wf()
    &&& img.width == region.width
    &&& img.height == region.height
    &&& img.channels == 3
    &&& forall|i: int, j: int|
        0 <= i < region.width && 0 <= j < region.height ==> #[trigger] img.pixel(i, j) == screen_pixel(x0 + i, y0 + j)
}

/// `img` is what a capture with the region setting `region` takes: the
/// region's capture, or the whole synthetic screen.
pub open spec fn is_capture(img: Image, region: Option<CaptureRegion>) -> bool {
    match region {
        Some(reg) => is_region_capture(img, reg),
        None => is_synthetic_screen(img),
    }
}

/// A rectangle of the screen to capture.
#[derive(Debug, Clone, Copy)]
pub struct CaptureRegion {
    pub x: i32,
    pub y: i32,
    pub width: u32,
    pub height: u32,
}

/// Capture settings.
#[derive(Debug, Clone, Copy)]
pub struct CaptureConfig {
    pub target_fps: u32,
    pub compression_quality: u8,
    pub capture_cursor: bool,
    pub capture_region: Option<CaptureRegion>,
}

impl Default for CaptureConfig {
    fn default() -> (c: Self)
        ensures
            c.target_fps == 30,
            c.compression_quality == 85,
            !c.capture_cursor,
            c.capture_region is None,
    {
        CaptureConfig {
            target_fps: 30,
            compression_quality: 85,
            capture_cursor: false,
            capture_region: None,
        }
    }
}

/// A crop of `region` from a three-channel screen fits in memory.
pub open spec fn region_fits(region: CaptureRegion) -> bool {
    &&& region.width * region.height * 3 <= usize::MAX
    &&& (if region.x < 0 { 0 } else { region.x as int }) + region.width <= usize::MAX
    &&& (if region.y < 0 { 0 } else { region.y as int }) + region.height <= usize::MAX
}

/// Settings a capture can run with: a positive frame rate and a region, if
/// any, that fits in memory.
pub open spec fn config_valid(config: CaptureConfig) -> bool {
    &&& config.target_fps > 0
    &&& config.capture_region matches Some(r) ==> region_fits(r)
}

/// Why a capture failed.
#[derive(Debug)]
pub enum CaptureError {
    PlatformError(String),
    InvalidRegion,
    AlreadyRunning,
    NotRunning,
    SystemError(String),
}

impl CaptureError {
    /// The text the error is shown with.
    pub open spec fn spec_message(&self) -> Seq<char> {
        match self {
            CaptureError::PlatformError(m) => "Platform error: "@ + m@,
            CaptureError::InvalidRegion => "Invalid capture region"@,
            CaptureError::AlreadyRunning => "Capture already running"@,
            CaptureError::NotRunning => "Capture not running"@,
            CaptureError::SystemError(m) => "System error: "@ + m@,
        }
    }

    /// The text the error is shown with.
    pub fn message(&self) -> (s: String)
        ensures
            s@ == self.spec_message(),
    {
        match self {
            CaptureError::PlatformError(m) => {
                let mut s = String::from_str("Platform error: ");
                s.append(m.as_str());
                s
            },
            CaptureError::InvalidRegion => String::from_str("Invalid capture region"),
            CaptureError::AlreadyRunning => String::from_str("Capture already running"),
            CaptureError::NotRunning => String::from_str("Capture not running"),
            CaptureError::SystemError(m) => {
                let mut s = String::from_str("System error: ");
                s.append(m.as_str());
                s
            },
        }
    }
}

/// A display attached to the machine.
#[derive(Debug, Clone)]
pub struct DisplayInfo {
    pub id: u32,
    pub name: String,
    pub width: u32,
    pub height: u32,
    pub x: i32,
    pub y: i32,
    pub is_primary: bool,
}

/// The synthetic screen's pixel at `(x, y)` on a `w` x `h` screen: two
/// light-gray buttons and a white text box over a gradient whose red grows
/// to the right and green downwards.
pub open spec fn pattern_pixel(x: int, y: int, w: int, h: int) -> Seq<u8> {
    let in_button1 = 100 < x < 300 && 100 < y < 150;
    let in_button2 = 400 < x < 600 && 200 < y < 250;
    let in_textbox = 100 < x < 500 && 300 < y < 330;
    if in_button1 || in_button2 {
        seq![200u8, 200u8, 200u8]
    } else if in_textbox {
        seq![255u8, 255u8, 255u8]
    } else {
        seq![(x * 255 / w) as u8, (y * 255 / h) as u8, 128u8]
    }
}

/// The synthetic `width` x `height` RGB screen.
pub fn create_test_pattern(width: usize, height: usize) -> (img: Image)
    requires
        width * height * 3 <= usize::MAX,
    ensures
        img.wf(),
        img.width == width,
        img.height == height,
        img.channels == 3,
        forall|x: int, y: int|
            0 <= x < width && 0 <= y < height ==> #[trigger] img.pixel(x, y) == pattern_pixel(x, y, width as int, height as int),
{
    assert(width * height <= width * height * 3) by (nonlinear_arith);
    let mut img = Image::new(width, height, 3);
    proof {
        lemma_zero_pixels(img.data@, width as int, height as int, 3);
    }
    let mut y: usize = 0;
    while y < height
        invariant
            img.wf(),
            img.width == width,
            img.height == height,
            img.channels == 3,
            y <= height,
            forall|xx: int, yy: int|
                0 <= xx < width && 0 <= yy < height ==> #[trigger] img.pixel(xx, yy) == (if yy < y {
                    pattern_pixel(xx, yy, width as int, height as int)
                } else {
                    zero_pixel(3)
                }),
        decreases height - y,
    {
        let mut x: usize = 0;
        while x < width
            invariant
                img.wf(),
                img.width == width,
                img.height == height,
                img.channels == 3,
                y < height,
                x <= width,
                forall|xx: int, yy: int|
                    0 <= xx < width && 0 <= yy < height ==> #[trigger] img.pixel(xx, yy) == (if yy < y
                        || (yy == y && xx < x) {
                        pattern_pixel(xx, yy, width as int, height as int)
                    } else {
                        zero_pixel(3)
                    }),
            decreases width - x,
        {
            let in_button1 = x > 100 && x < 300 && y > 100 && y < 150;
            let in_button2 = x > 400 && x < 600 && y > 200 && y < 250;
            let in_textbox = x > 100 && x < 500 && y > 300 && y < 330;
            let pixel: [u8; 3] = if in_button1 || in_button2 {
                [200, 200, 200]
            } else if in_textbox {
                [255, 255, 255]
            } else {
                assert((x as int) * 255 / (width as int) < 256 && (y as int) * 255 / (height as int) < 256) by (nonlinear_arith)
                    requires
                        x < width,
                        y < height,
                ;
                assert((x as u128) * 255 <= 255 * 0xffff_ffff_ffff_ffff && (y as u128) * 255 <= 255 * 0xffff_ffff_ffff_ffff) by (nonlinear_arith)
                    requires
                        x <= 0xffff_ffff_ffff_ffff,
                        y <= 0xffff_ffff_ffff_ffff,
                ;
                let r = ((x as u128) * 255 / (width as u128)) as u8;
                let g = ((y as u128) * 255 / (height as u128)) as u8;
                [r, g, 128]
            };
            assert(pixel@ =~= pattern_pixel(x as int, y as int, width as int, height as int));
            img.set_pixel(x, y, &pixel);
            x = x + 1;
        }
        y = y + 1;
    }
    img
}

/// The milliseconds to wait before the next frame, when the last frame
/// was taken at `last` and the clock reads `now`.
pub open spec fn frame_wait(last: Option<u64>, now: u64, interval: u64) -> u64 {
    match last {
        None => 0,
        Some(t) => {
            let elapsed = if now >= t { now - t } else { 0 };
            if elapsed < interval {
                (interval - elapsed) as u64
            } else {
                0
            }
        },
    }
}

/// The screen, paced to a frame rate, cropped to a region if one is set.
pub struct ScreenCapture {
    config: CaptureConfig,
    last_capture_time: Option<u64>,
    frame_interval: u64,
    capture_count: u64,
}

impl ScreenCapture {
    /// The settings.
    pub closed spec fn settings(self) -> CaptureConfig {
        self.config
    }

    /// When the last frame was taken (milliseconds since the epoch).
    pub closed spec fn last_capture(self) -> Option<u64> {
        self.last_capture_time
    }

    /// Milliseconds between frames.
    pub closed spec fn interval(self) -> u64 {
        self.frame_interval
    }

    /// Frames taken so far.
    pub closed spec fn count(self) -> u64 {
        self.capture_count
    }

    /// A capture with the given settings that has taken no frame yet.
    pub fn new(config: CaptureConfig) -> (c: Self)
        requires
            config.target_fps > 0,
        ensures
            c.settings() == config,
            c.last_capture() is None,
            c.interval() == 1000int / (config.target_fps as int),
            c.count() == 0,
    {
        let frame_interval = 1000 / config.target_fps as u64;
        ScreenCapture { config, last_capture_time: None, frame_interval, capture_count: 0 }
    }

    /// When the last frame was taken, if one was.
    pub fn last_capture_time(&self) -> (t: Option<u64>)
        ensures
            t == self.last_capture(),
    {
        self.last_capture_time
    }

    /// How long to wait at the clock reading `now_ms` before the next frame
    /// keeps to the frame rate.
    pub fn pending_wait_ms(&self, now_ms: u64) -> (wait: u64)
        ensures
            wait == frame_wait(self.last_capture(), now_ms, self.interval()),
    {
        match self.last_capture_time {
            None => 0,
            Some(t) => {
                let elapsed = now_ms.saturating_sub(t);
                if elapsed < self.frame_interval {
                    self.frame_interval - elapsed
                } else {
                    0
                }
            },
        }
    }

    /// The whole screen: where no platform capture is wired in, the
    /// synthetic 1920 x 1080 screen.
    pub fn capture_full_screen(&self) -> (img: Image)
        ensures
            img.wf(),
            img.width == 1920,
            img.height == 1080,
            img.channels == 3,
            forall|x: int, y: int|
                0 <= x < 1920 && 0 <= y < 1080 ==> #[trigger] img.pixel(x, y) == pattern_pixel(x, y, 1920, 1080),
    {
        create_test_pattern(1920, 1080)
    }

    /// The region `region` of the screen, as large as the region, with zero
    /// pixels where it leaves the screen; negative corners count as 0.
    pub fn capture_region(&self, region: &CaptureRegion) -> (img: Image)
        requires
            region_fits(*region),
        ensures
            is_region_capture(img, *region),
    {
        let full = self.capture_full_screen();
        let x: usize = if region.x < 0 {
            0
        } else {
            region.x as usize
        };
        let y: usize = if region.y < 0 {
            0
        } else {
            region.y as usize
        };
        let w = region.width as usize;
        let h = region.height as usize;
        assert(w * h <= w * h * 3) by (nonlinear_arith);
        let img = full.crop(x, y, w, h);
        assert forall|i: int, j: int| 0 <= i < region.width && 0 <= j < region.height implies #[trigger] img.pixel(i, j)
            == screen_pixel(x + i, y + j) by {
            assert(img.pixel(i, j) == full.cropped_pixel(x as int, y as int, i, j));
            if full.in_bounds(x + i, y + j) {
                assert(full.pixel(x + i, y + j) == pattern_pixel(x + i, y + j, 1920, 1080));
            }
        }
        img
    }

    /// Takes a frame at the clock reading `now_ms`: the region if one is
    /// set, else the whole screen. The caller waits `pending_wait_ms` first.
    pub fn capture_screen_at(&mut self, now_ms: u64) -> (r: Result<Image, CaptureError>)
        requires
            config_valid(old(self).settings()),
        ensures
            final(self).settings() == old(self).settings(),
            final(self).interval() == old(self).interval(),
            final(self).last_capture() == Some(now_ms),
            final(self).count() == (if old(self).count() < u64::MAX {
                old(self).count() + 1
            } else {
                old(self).count() as int
            }),
            r matches Ok(img) && is_capture(img, old(self).settings().capture_region),
    {
        let img = match self.config.capture_region {
            Some(region) => self.capture_region(&region),
            None => self.capture_full_screen(),
        };
        self.last_capture_time = Some(now_ms);
        self.capture_count = self.capture_count.saturating_add(1);
        Ok(img)
    }

    /// Takes a frame now, by the system clock.
    pub fn capture_screen(&mut self) -> (r: Result<Image, CaptureError>)
        requires
            config_valid(old(self).settings()),
        ensures
            final(self).settings() == old(self).settings(),
            final(self).interval() == old(self).interval(),
            final(self).last_capture() is Some,
            final(self).count() == (if old(self).count() < u64::MAX {
                old(self).count() + 1
            } else {
                old(self).count() as int
            }),
            r matches Ok(img) && is_capture(img, old(self).settings().capture_region),
    {
        let now = crate::util::clock_millis();
        self.capture_screen_at(now)
    }

    /// The size of a window's capture: where no platform capture is wired
    /// in, the synthetic 800 x 600 screen.
    pub fn capture_window(&self, window_id: u64) -> (r: Result<Image, CaptureError>)
        ensures
            r matches Ok(img) && img.wf() && img.width == 800 && img.height == 600 && img.channels == 3,
    {
        Ok(create_test_pattern(800, 600))
    }

    /// The screen size.
    pub fn get_screen_dimensions(&self) -> (r: Result<(u32, u32), CaptureError>)
        ensures
            r matches Ok(d) && d == (1920u32, 1080u32),
    {
        Ok((1920, 1080))
    }

    /// The number of frames taken.
    pub fn get_capture_count(&self) -> (n: u64)
        ensures
            n == self.count(),
    {
        self.capture_count
    }

    /// The displays: the primary one.
    pub fn list_displays(&self) -> (r: Result<Vec<DisplayInfo>, CaptureError>)
        ensures
            r matches Ok(v) && v.len() == 1 && v[0].id == 0 && v[0].name@ == "Primary Display"@
                && v[0].width == 1920 && v[0].height == 1080 && v[0].x == 0 && v[0].y == 0
                && v[0].is_primary,
    {
        let mut v: Vec<DisplayInfo> = Vec::new();
        v.push(
            DisplayInfo {
                id: 0,
                name: String::from_str("Primary Display"),
                width: 1920,
                height: 1080,
                x: 0,
                y: 0,
                is_primary: true,
            },
        );
        Ok(v)
    }
}

/// A full-screen frame with the default settings.
pub fn quick_screenshot() -> (r: Result<Image, CaptureError>)
    ensures
        r matches Ok(img) && is_synthetic_screen(img),
{
    let mut capture = ScreenCapture::new(CaptureConfig::default());
    capture.capture_screen()
}

/// A frame of the given region with the default settings otherwise.
pub fn screenshot_region(x: i32, y: i32, width: u32, height: u32) -> (r: Result<Image, CaptureError>)
    requires
        region_fits(CaptureRegion { x, y, width, height }),
    ensures
        r matches Ok(img) && is_region_capture(img, CaptureRegion { x, y, width, height }),
{
    let mut config = CaptureConfig::default();
    config.capture_region = Some(CaptureRegion { x, y, width, height });
    let mut capture = ScreenCapture::new(config);
    capture.capture_screen()
}

} // verus!
