//! Platform helpers: error texts, the permission report, fixed platform
//! facts, and UTF-16 strings for wide-character APIs.

use vstd::prelude::*;
use vstd::string::StringExecFns;
use crate::text::{append_decimal, decimal};

verus! {

/// Which capabilities the assistant has on this machine.
#[derive(Debug, Clone, Copy)]
pub struct PermissionStatus {
    pub screen_capture: bool,
    pub input_simulation: bool,
    pub window_management: bool,
    pub memory_access: bool,
}

/// The names of the capabilities `p` lacks, in a fixed order.
pub open spec fn missing_names(p: PermissionStatus) -> Seq<Seq<char>> {
    (if !p.screen_capture { seq!["Screen Capture"@] } else { Seq::empty() })
        + (if !p.input_simulation { seq!["Input Simulation"@] } else { Seq::empty() })
        + (if !p.window_management { seq!["Window Management"@] } else { Seq::empty() })
        + (if !p.memory_access { seq!["Memory Access"@] } else { Seq::empty() })
}

impl PermissionStatus {
    /// Every capability is there.
    pub fn all_granted(&self) -> (b: bool)
        ensures
            b == (self.screen_capture && self.input_simulation && self.window_management
                && self.memory_access),
    {
        self.screen_capture && self.input_simulation && self.window_management && self.memory_access
    }

    /// The names of the missing capabilities.
    pub fn get_missing_permissions(&self) -> (v: Vec<String>)
        ensures
            v@.map_values(|s: String| s@) == missing_names(*self),
    {
        let mut missing: Vec<String> = Vec::new();
        let ghost mut names: Seq<Seq<char>> = Seq::empty();
        if !self.screen_capture {
            missing.push(String::from_str("Screen Capture"));
            proof {
                names = names + seq!["Screen Capture"@];
            }
        }
        assert(missing@.map_values(|s: String| s@) =~= names);
        if !self.input_simulation {
            missing.push(String::from_str("Input Simulation"));
            proof {
                names = names + seq!["Input Simulation"@];
            }
        }
        assert(missing@.map_values(|s: String| s@) =~= names);
        if !self.window_management {
            missing.push(String::from_str("Window Management"));
            proof {
                names = names + seq!["Window Management"@];
            }
        }
        assert(missing@.map_values(|s: String| s@) =~= names);
        if !self.memory_access {
            missing.push(String::from_str("Memory Access"));
            proof {
                names = names + seq!["Memory Access"@];
            }
        }
        assert(missing@.map_values(|s: String| s@) =~= names);
        assert(names =~= missing_names(*self));
        missing
    }
}

/// Helpers around the platform's window and error APIs.
pub struct WindowsApiHelper;

/// The text of a platform error code.
pub open spec fn error_text(code: u32) -> Seq<char> {
    if code == 0 {
        "Success"@
    } else if code == 5 {
        "Access denied"@
    } else if code == 6 {
        "Invalid handle"@
    } else if code == 87 {
        "Invalid parameter"@
    } else {
        "Windows error code: "@ + decimal(code as nat)
    }
}

impl WindowsApiHelper {
    /// The text of a platform error code.
    pub fn error_to_string(error_code: u32) -> (s: String)
        ensures
            s@ == error_text(error_code),
    {
        if error_code == 0 {
            String::from_str("Success")
        } else if error_code == 5 {
            String::from_str("Access denied")
        } else if error_code == 6 {
            String::from_str("Invalid handle")
        } else if error_code == 87 {
            String::from_str("Invalid parameter")
        } else {
            let mut s = String::from_str("Windows error code: ");
            append_decimal(&mut s, error_code as u64);
            s
        }
    }

    /// The permission report from the platform probes: the desktop window
    /// handle, the foreground window handle, and whether the memory query
    /// succeeded. Input simulation is taken as granted.
    pub fn check_permissions(desktop_window: isize, foreground_window: isize, memory_query_ok: bool) -> (p: PermissionStatus)
        ensures
            p.screen_capture == (desktop_window != 0),
            p.input_simulation,
            p.window_management == (foreground_window != 0),
            p.memory_access == memory_query_ok,
    {
        PermissionStatus {
            screen_capture: desktop_window != 0,
            input_simulation: true,
            window_management: foreground_window != 0,
            memory_access: memory_query_ok,
        }
    }
}

/// Fixed facts about the platform.
pub struct WinApiUtils;

impl WinApiUtils {
    /// The supported platform versions.
    pub fn get_windows_version() -> (s: String)
        ensures
            s@ == "Windows 10/11"@,
    {
        String::from_str("Windows 10/11")
    }

    /// Dark mode is reported as off.
    pub fn is_dark_mode() -> (b: bool)
        ensures
            !b,
    {
        false
    }

    /// The uptime reported where the platform does not give it: an hour.
    pub fn get_system_uptime() -> (s: u64)
        ensures
            s == 3600,
    {
        3600
    }
}

/// The message for a failed platform call `operation` with error
/// `error_code`: `"<operation> failed: <text> (<code>)"`.
pub open spec fn windows_error_text(operation: Seq<char>, code: u32) -> Seq<char> {
    operation + " failed: "@ + error_text(code) + " ("@ + decimal(code as nat) + ")"@
}

/// The message for a failed platform call.
pub fn windows_error(operation: &str, error_code: u32) -> (s: String)
    ensures
        s@ == windows_error_text(operation@, error_code),
{
    let mut s = String::from_str(operation);
    s.append(" failed: ");
    let text = WindowsApiHelper::error_to_string(error_code);
    s.append(text.as_str());
    s.append(" (");
    append_decimal(&mut s, error_code as u64);
    s.append(")");
    s
}

/// The UTF-16 code units of `c`: one unit below U+10000, else a surrogate
/// pair.
pub open spec fn utf16_units(c: char) -> Seq<u16> {
    let v = (c as u32) as int;
    if v < 0x10000 {
        seq![v as u16]
    } else {
        seq![(0xd800 + (v - 0x10000) / 1024) as u16, (0xdc00 + (v - 0x10000) % 1024) as u16]
    }
}

/// The UTF-16 encoding of `s`.
pub open spec fn utf16(s: Seq<char>) -> Seq<u16>
    decreases s.len(),
{
    if s.len() == 0 {
        Seq::empty()
    } else {
        utf16(s.drop_last()) + utf16_units(s.last())
    }
}

/// `s` in UTF-16 followed by a terminating zero unit.
pub fn to_wide_string(s: &str) -> (w: Vec<u16>)
    ensures
        w@ == utf16(s@).push(0u16),
{
    let chars = crate::text::chars_of(s);
    let mut w: Vec<u16> = Vec::new();
    let mut i: usize = 0;
    while i < chars.len()
        invariant
            i <= chars.len(),
            chars@ == s@,
            w@ == utf16(chars@.take(i as int)),
        decreases chars.len() - i,
    {
        let v = chars[i] as u32;
        proof {
            vstd::utf8::char_is_scalar(chars@[i as int]);
        }
        assert(chars@.take(i + 1).drop_last() =~= chars@.take(i as int));
        let ghost c = chars@[i as int];
        assert(v == c as u32);
        if v < 0x10000 {
            w.push(v as u16);
            assert(utf16_units(c) == seq![v as u16]);
        } else {
            let rest = v - 0x10000;
            assert(rest / 1024 < 0x400);
            let hi = (0xd800 + rest / 1024) as u16;
            let lo = (0xdc00 + rest % 1024) as u16;
            w.push(hi);
            w.push(lo);
            assert(utf16_units(c) =~= seq![hi, lo]);
        }
        assert(w@ =~= utf16(chars@.take(i + 1)));
        i = i + 1;
    }
    assert(chars@.take(chars.len() as int) =~= s@);
    w.push(0);
    w
}

} // verus!
