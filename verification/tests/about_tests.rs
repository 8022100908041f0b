use luna::{check_compatibility, info, version_info, NAME, VERSION};

#[test]
fn test_library_info() {
    let info = info("linux", "x86_64");
    assert_eq!(info.name, NAME);
    assert_eq!(info.version, VERSION);
    assert!(!info.features.is_empty());
}

#[test]
fn test_version_info() {
    let version = version_info();
    assert_eq!(version.name, "luna");
    assert_eq!(version.version, "1.0.0");
}

#[test]
fn test_compatibility_check() {
    let compat = check_compatibility();
    assert!(!compat.windows_version.is_empty());
}

#[test]
fn features_name_the_input_backend() {
    let i = info("windows", "x86_64");
    assert_eq!(i.features.last().unwrap(), "windows-input");
    assert!(i.platform.supports_input);
    let other = info("plan9", "mips");
    assert_eq!(other.features.len(), 4);
    assert!(!other.platform.supports_input);
    assert!(other.platform.supports_overlay);
}
