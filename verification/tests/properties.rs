use bucc_secco::{any_nul_bytes, SanitizedPath};

#[test]
fn depth_tracking() {
    // Three ascents requested, only two legal; the third is discarded.
    let sanitized = SanitizedPath::sanitize("a/b/../../../c", None, false).unwrap();
    assert_eq!("c", sanitized.as_str());
}

#[test]
fn base_path_join() {
    // Every parent reference from depth zero is discarded before the join.
    let sanitized =
        SanitizedPath::sanitize("../../etc/passwd", Some("/safe/dir"), false).unwrap();
    assert_eq!("/safe/dir/etc/passwd", sanitized.as_str());
}

#[test]
fn nested_legal_ascent() {
    let sanitized = SanitizedPath::sanitize("a/b/../c", None, false).unwrap();
    assert_eq!("a/c", sanitized.as_str());
}

#[test]
fn idempotent_on_sanitized() {
    let once = SanitizedPath::sanitize("/x/../y/./z//", None, false)
        .unwrap()
        .into_inner();
    let twice = SanitizedPath::sanitize(&once, None, false).unwrap().into_inner();
    assert_eq!(once, twice);
}

#[test]
fn root_stripping_matches_relative() {
    let absolute = SanitizedPath::sanitize("/etc/passwd", None, false).unwrap();
    let relative = SanitizedPath::sanitize("etc/passwd", None, false).unwrap();
    assert_eq!(absolute.as_str(), relative.as_str());
}

#[test]
fn repeated_separators_collapse() {
    let sanitized = SanitizedPath::sanitize("a//b///c", None, false).unwrap();
    assert_eq!("a/b/c", sanitized.as_str());
}

#[test]
fn cur_dir_markers_vanish() {
    let sanitized = SanitizedPath::sanitize("./a/./b/.", None, false).unwrap();
    assert_eq!("a/b", sanitized.as_str());
}

#[test]
fn trailing_separator_dropped() {
    let sanitized = SanitizedPath::sanitize("a/b/", None, false).unwrap();
    assert_eq!("a/b", sanitized.as_str());
}

#[test]
fn base_with_trailing_separator() {
    let sanitized = SanitizedPath::sanitize("x/y", Some("/safe/"), false).unwrap();
    assert_eq!("/safe/x/y", sanitized.as_str());
}

#[test]
fn empty_cleaned_keeps_base() {
    let sanitized = SanitizedPath::sanitize("..", Some("/safe"), false).unwrap();
    assert_eq!("/safe", sanitized.as_str());
}

#[test]
fn hardened_mode_accepts_clean_input() {
    let sanitized = SanitizedPath::sanitize("a/b", None, true).unwrap();
    assert_eq!("a/b", sanitized.as_str());
}

#[test]
fn try_from_uses_relaxed_mode() {
    let sanitized = SanitizedPath::try_from("/a/../\0b").unwrap();
    assert_eq!("b", sanitized.as_str());
}

#[test]
fn into_inner_hands_back_the_path() {
    let sanitized = SanitizedPath::sanitize("a/b/../c", None, false).unwrap();
    let inner: String = sanitized.into_inner();
    assert_eq!("a/c", inner);
}

#[test]
fn nul_detection() {
    assert!(any_nul_bytes("a/\0/b"));
    assert!(!any_nul_bytes("a/b"));
    assert!(!any_nul_bytes(""));
}
