//! What the library is: its name, version, features and platform support.

use vstd::prelude::*;
use vstd::string::StringExecFns;

verus! {

/// The library's version.
pub const VERSION: &'static str = "1.0.0";

/// The library's name.
pub const NAME: &'static str = "luna";

/// The platform the library runs on.
#[derive(Debug, Clone)]
pub struct PlatformInfo {
    pub os: String,
    pub arch: String,
    pub supports_overlay: bool,
    pub supports_input: bool,
}

/// The library's name, version, features and platform.
#[derive(Debug, Clone)]
pub struct LibraryInfo {
    pub name: String,
    pub version: String,
    pub features: Vec<String>,
    pub platform: PlatformInfo,
}

/// The library's name and version.
#[derive(Debug, Clone)]
pub struct VersionInfo {
    pub name: String,
    pub version: String,
}

/// Whether the system suits the library, and what to do if not.
#[derive(Debug, Clone)]
pub struct CompatibilityInfo {
    pub compatible: bool,
    pub windows_version: String,
    pub issues: Vec<String>,
    pub recommendations: Vec<String>,
}

/// The operating systems input injection is implemented for.
pub open spec fn has_input_backend(os: Seq<char>) -> bool {
    os == "windows"@ || os == "linux"@ || os == "macos"@
}

/// The features built in on `os`: the four core ones, then the input
/// backend of the operating system if it has one.
pub open spec fn feature_names(os: Seq<char>) -> Seq<Seq<char>> {
    seq!["computer-vision"@, "safety-system"@, "overlay-system"@, "screen-capture"@] + if os
        == "windows"@ {
        seq!["windows-input"@]
    } else if os == "linux"@ {
        seq!["linux-input"@]
    } else if os == "macos"@ {
        seq!["macos-input"@]
    } else {
        Seq::empty()
    }
}

/// The features built in on the operating system `os`.
pub fn get_enabled_features(os: &str) -> (v: Vec<String>)
    ensures
        v@.map_values(|s: String| s@) == feature_names(os@),
{
    let mut v: Vec<String> = Vec::new();
    v.push(String::from_str("computer-vision"));
    v.push(String::from_str("safety-system"));
    v.push(String::from_str("overlay-system"));
    v.push(String::from_str("screen-capture"));
    let ghost base = seq!["computer-vision"@, "safety-system"@, "overlay-system"@, "screen-capture"@];
    assert(v@.map_values(|s: String| s@) =~= base);
    if crate::text::str_eq(os, "windows") {
        v.push(String::from_str("windows-input"));
        assert(v@.map_values(|s: String| s@) =~= base + seq!["windows-input"@]);
    } else if crate::text::str_eq(os, "linux") {
        v.push(String::from_str("linux-input"));
        assert(v@.map_values(|s: String| s@) =~= base + seq!["linux-input"@]);
    } else if crate::text::str_eq(os, "macos") {
        v.push(String::from_str("macos-input"));
        assert(v@.map_values(|s: String| s@) =~= base + seq!["macos-input"@]);
    } else {
        assert(v@.map_values(|s: String| s@) =~= base + Seq::<Seq<char>>::empty());
    }
    v
}

/// The platform record for the operating system `os` on the architecture
/// `arch`: overlays everywhere, input where there is a backend.
pub fn get_platform_info(os: &str, arch: &str) -> (p: PlatformInfo)
    ensures
        p.os@ == os@,
        p.arch@ == arch@,
        p.supports_overlay,
        p.supports_input == has_input_backend(os@),
{
    let input = crate::text::str_eq(os, "windows") || crate::text::str_eq(os, "linux")
        || crate::text::str_eq(os, "macos");
    PlatformInfo {
        os: String::from_str(os),
        arch: String::from_str(arch),
        supports_overlay: true,
        supports_input: input,
    }
}

/// The library record on the operating system `os` and architecture `arch`.
pub fn info(os: &str, arch: &str) -> (i: LibraryInfo)
    ensures
        i.name@ == NAME@,
        i.version@ == VERSION@,
        i.features@.map_values(|s: String| s@) == feature_names(os@),
        i.platform.os@ == os@,
        i.platform.arch@ == arch@,
        i.platform.supports_overlay,
        i.platform.supports_input == has_input_backend(os@),
{
    LibraryInfo {
        name: String::from_str(NAME),
        version: String::from_str(VERSION),
        features: get_enabled_features(os),
        platform: get_platform_info(os, arch),
    }
}

/// The library's name and version.
pub fn version_info() -> (v: VersionInfo)
    ensures
        v.name@ == "luna"@,
        v.version@ == "1.0.0"@,
{
    VersionInfo { name: String::from_str("luna"), version: String::from_str("1.0.0") }
}

/// The compatibility report: the supported platform versions, nothing to
/// fix.
pub fn check_compatibility() -> (c: CompatibilityInfo)
    ensures
        c.compatible,
        c.windows_version@ == "Windows 10/11"@,
        c.issues@.len() == 0,
        c.recommendations@.len() == 0,
{
    CompatibilityInfo {
        compatible: true,
        windows_version: crate::winapi::WinApiUtils::get_windows_version(),
        issues: Vec::new(),
        recommendations: Vec::new(),
    }
}

} // verus!
