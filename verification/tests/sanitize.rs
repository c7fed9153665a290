use bucc_secco::{SanitizeError, SanitizedPath};

const NUL_PATH: &str = ".config/\0/nvim";

#[test]
fn nul_byte_error() {
    let r = SanitizedPath::sanitize(NUL_PATH, None, true);
    assert!(matches!(r, Err(SanitizeError::InvalidInput)));
}

#[test]
fn nul_byte_erase() {
    let sanitized = SanitizedPath::sanitize(NUL_PATH, None, false).unwrap();
    assert_eq!(".config/nvim", sanitized.as_str());
}

#[test]
fn starts_with_nul() {
    let sanitized = SanitizedPath::sanitize("\0etc/shadow", None, false).unwrap();
    assert_eq!("etc/shadow", sanitized.as_str());
}

#[test]
fn only_nuls() {
    let sanitized = SanitizedPath::sanitize("\0\0\0", None, false).unwrap();
    assert_eq!("", sanitized.as_str());
}

#[test]
fn root() {
    let sanitized = SanitizedPath::sanitize("/etc/passwd", None, false).unwrap();
    assert_eq!("etc/passwd", sanitized.as_str());
}

#[test]
fn prefix() {
    // This model has no platform-prefix component: a drive-like leading
    // segment is an ordinary named segment and passes through unchanged.
    let sanitized = SanitizedPath::sanitize("C:/temp/out.txt", None, false).unwrap();
    assert_eq!("C:/temp/out.txt", sanitized.as_str());
}

#[test]
fn lots_o_parents() {
    let sanitized =
        SanitizedPath::sanitize("../../../../../etc/passwd", None, false).unwrap();
    assert_eq!("etc/passwd", sanitized.as_str());
}

#[test]
fn starts_with_parent() {
    let sanitized = SanitizedPath::sanitize("../secret", None, false).unwrap();
    assert_eq!("secret", sanitized.as_str());
}

#[test]
fn empty_path() {
    let sanitized = SanitizedPath::sanitize("", None, false).unwrap();
    assert_eq!("", sanitized.as_str());
}
