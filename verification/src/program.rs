//! The program's own decisions: how it is asked to run, which errors end
//! it, and when frame timings are reported.

use vstd::prelude::*;
use crate::text::{contains_text, lowercase, str_contains, str_eq, to_lowercase};

verus! {

/// How the program runs.
#[derive(Debug, Clone, Copy, PartialEq, Eq)]
pub enum AppMode {
    Normal,
    Test,
    Demo,
    Headless,
}

/// What the command line asks for: a mode to run in, or the help text.
#[derive(Debug, Clone, Copy, PartialEq, Eq)]
pub enum ParsedArgs {
    Run(AppMode),
    Help,
}

/// What the single argument `arg` asks for, if it is one of the options.
pub open spec fn option_of(arg: Seq<char>) -> Option<ParsedArgs> {
    if arg == "--test"@ {
        Some(ParsedArgs::Run(AppMode::Test))
    } else if arg == "--demo"@ {
        Some(ParsedArgs::Run(AppMode::Demo))
    } else if arg == "--headless"@ {
        Some(ParsedArgs::Run(AppMode::Headless))
    } else if arg == "--help"@ || arg == "-h"@ {
        Some(ParsedArgs::Help)
    } else {
        None
    }
}

/// What the arguments `args` ask for: the first option among them, other
/// arguments ignored; the normal mode when there is none.
pub open spec fn parsed(args: Seq<Seq<char>>) -> ParsedArgs
    decreases args.len(),
{
    if args.len() == 0 {
        ParsedArgs::Run(AppMode::Normal)
    } else {
        match option_of(args[0]) {
            Some(p) => p,
            None => parsed(args.drop_first()),
        }
    }
}

/// The texts of `args`.
pub open spec fn texts(args: Seq<String>) -> Seq<Seq<char>> {
    args.map_values(|a: String| a@)
}

fn option_in(arg: &str) -> (r: Option<ParsedArgs>)
    ensures
        r == option_of(arg@),
{
    if str_eq(arg, "--test") {
        Some(ParsedArgs::Run(AppMode::Test))
    } else if str_eq(arg, "--demo") {
        Some(ParsedArgs::Run(AppMode::Demo))
    } else if str_eq(arg, "--headless") {
        Some(ParsedArgs::Run(AppMode::Headless))
    } else if str_eq(arg, "--help") || str_eq(arg, "-h") {
        Some(ParsedArgs::Help)
    } else {
        None
    }
}

/// What the command line `args` asks for; `args[0]` is the program's name
/// and is skipped.
pub fn parse_args(args: &Vec<String>) -> (r: ParsedArgs)
    requires
        args@.len() >= 1,
    ensures
        r == parsed(texts(args@).drop_first()),
{
    let ghost all = texts(args@);
    let mut i: usize = 1;
    while i < args.len()
        invariant
            1 <= i <= args@.len(),
            all == texts(args@),
            parsed(all.drop_first()) == parsed(all.subrange(i as int, all.len() as int)),
        decreases args@.len() - i,
    {
        let ghost rest = all.subrange(i as int, all.len() as int);
        assert(rest[0] == args@[i as int]@);
        assert(rest.drop_first() =~= all.subrange(i + 1, all.len() as int));
        match option_in(args[i].as_str()) {
            Some(p) => {
                return p;
            },
            None => {},
        }
        i = i + 1;
    }
    assert(all.subrange(i as int, all.len() as int) =~= Seq::<Seq<char>>::empty());
    ParsedArgs::Run(AppMode::Normal)
}

/// An error whose text `message`, in lower case, speaks of something
/// critical or fatal, of running out of memory or of a denied permission
/// ends the program.
pub open spec fn critical(message: Seq<char>) -> bool {
    let l = lowercase(message);
    contains_text(l, "critical"@) || contains_text(l, "fatal"@) || contains_text(l, "out of memory"@)
        || contains_text(l, "permission denied"@)
}

/// Whether an error with the text `message` ends the program.
pub fn is_critical_error(message: &str) -> (b: bool)
    ensures
        b == critical(message@),
{
    let l = to_lowercase(message);
    let s = l.as_str();
    str_contains(s, "critical") || str_contains(s, "fatal") || str_contains(s, "out of memory") || str_contains(
        s,
        "permission denied",
    )
}

/// A report of frame timings: frames since the last report, milliseconds
/// that took, and the processing time they added up to.
#[derive(Debug, Clone, Copy, PartialEq, Eq)]
pub struct FrameReport {
    pub frames: u64,
    pub elapsed_ms: u64,
    pub total_processing_ms: u64,
}

/// Frame timings, reported every five seconds.
pub struct PerformanceMetrics {
    frame_count: u64,
    total_processing_ms: u64,
    last_report_ms: u64,
}

/// How long, in milliseconds, between two reports at least.
pub const REPORT_INTERVAL_MS: u64 = 5000;

impl PerformanceMetrics {
    /// Frames counted since the last report.
    pub closed spec fn frames(self) -> u64 {
        self.frame_count
    }

    /// Processing time counted since the last report.
    pub closed spec fn processing_ms(self) -> u64 {
        self.total_processing_ms
    }

    /// When the last report was made, or counting began.
    pub closed spec fn last_report(self) -> u64 {
        self.last_report_ms
    }

    /// Nothing counted, counting from `now_ms`.
    pub fn new_at(now_ms: u64) -> (m: Self)
        ensures
            m.frames() == 0,
            m.processing_ms() == 0,
            m.last_report() == now_ms,
    {
        PerformanceMetrics { frame_count: 0, total_processing_ms: 0, last_report_ms: now_ms }
    }

    /// Counts a frame that took `processing_ms`, at the clock reading
    /// `now_ms`.  When five seconds or more passed since the last report,
    /// gives the report of the frames counted so far and starts counting
    /// anew from `now_ms`.
    pub fn record_frame_at(&mut self, processing_ms: u64, now_ms: u64) -> (r: Option<FrameReport>)
        ensures
            ({
                let frames = if old(self).frames() < u64::MAX { old(self).frames() + 1 } else { old(self).frames() as int };
                let total = if old(self).processing_ms() + processing_ms > u64::MAX {
                    u64::MAX as int
                } else {
                    old(self).processing_ms() + processing_ms
                };
                let elapsed = if now_ms >= old(self).last_report() { now_ms - old(self).last_report() } else { 0 };
                if elapsed >= REPORT_INTERVAL_MS {
                    &&& r == Some(FrameReport { frames: frames as u64, elapsed_ms: elapsed as u64, total_processing_ms: total as u64 })
                    &&& final(self).frames() == 0
                    &&& final(self).processing_ms() == 0
                    &&& final(self).last_report() == now_ms
                } else {
                    &&& r is None
                    &&& final(self).frames() == frames
                    &&& final(self).processing_ms() == total
                    &&& final(self).last_report() == old(self).last_report()
                }
            }),
    {
        self.frame_count = self.frame_count.saturating_add(1);
        self.total_processing_ms = self.total_processing_ms.saturating_add(processing_ms);
        let elapsed = now_ms.saturating_sub(self.last_report_ms);
        if elapsed >= REPORT_INTERVAL_MS {
            let report = FrameReport {
                frames: self.frame_count,
                elapsed_ms: elapsed,
                total_processing_ms: self.total_processing_ms,
            };
            self.frame_count = 0;
            self.total_processing_ms = 0;
            self.last_report_ms = now_ms;
            Some(report)
        } else {
            None
        }
    }
}

} // verus!
