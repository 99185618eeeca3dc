use std::path::Path;
use studio_core::paths::{segment, within, PathError};

#[test]
fn a_plain_name_is_a_filename() {
    for name in ["berlin", "noto_sans", "a.b.c", "with space", "Ünïcøde"] {
        segment(name).unwrap_or_else(|error| panic!("{name:?} should be usable: {error:?}"));
    }
}

/// `assets::remove` joined an id straight from the webview, so this list is the exploit.
#[test]
fn a_name_that_is_a_path_is_refused() {
    for name in ["", ".", "..", "../x", "a/b", "a\\b", "C:x", "/etc/passwd", "a\0b"] {
        assert!(segment(name).is_err(), "{name:?} should be refused");
    }
}

#[test]
fn a_relative_path_lands_inside() {
    let dir = "/tmp/out";
    let joined = |relative: &str| Path::new(dir).join(relative).to_string_lossy().into_owned();
    assert_eq!(within(dir, "fonts/a.pbf").unwrap(), joined("fonts/a.pbf"));
    assert_eq!(within(dir, "./fonts/a.pbf").unwrap(), joined("./fonts/a.pbf"));
    // Down then back up, ending inside: legal, because it names somewhere within `dir`.
    assert_eq!(within(dir, "fonts/../a.pbf").unwrap(), joined("fonts/../a.pbf"));
}

/// Zip slip: the archive entry names that made `style::bundle` write outside its target.
#[test]
fn a_path_leaving_the_directory_is_refused() {
    let dir = "/tmp/out";
    for relative in ["../evil", "fonts/../../evil", "a/b/../../../evil", "/etc/passwd", "fonts/../.."] {
        assert!(within(dir, relative).is_err(), "{relative:?} should be refused");
    }
}

/// The prefix test this deliberately does not use would pass both of these: the first because
/// `/tmp/out/../evil` starts with `/tmp/out`, the second because `/tmp/out-backup` does too.
#[test]
fn the_check_is_not_a_string_prefix() {
    let dir = "/tmp/out";
    let escaped = Path::new(dir).join("../evil");
    assert!(escaped.to_string_lossy().starts_with("/tmp/out"), "premise of the test");
    assert!(within(dir, "../evil").is_err());
}

#[test]
fn each_refusal_says_why() {
    assert_eq!(segment(""), Err(PathError::Empty));
    assert_eq!(segment("a/b"), Err(PathError::Separator));
    assert_eq!(segment("C:x"), Err(PathError::Separator));
    assert_eq!(segment(".."), Err(PathError::Dot));
    assert_eq!(segment("..."), Ok(()));
    assert_eq!(within("/tmp/out", "/etc/passwd"), Err(PathError::Absolute));
    assert_eq!(within("/tmp/out", "a/../../b"), Err(PathError::Outside));
    assert_eq!(within("/tmp/out", "a//b/./.."), Ok("/tmp/out/a//b/./..".to_string()));
    assert_eq!(within("/tmp/out/", "a"), Ok("/tmp/out/a".to_string()));
    assert_eq!(within("", "a"), Ok("a".to_string()));
    assert_eq!(within("/tmp/out", "..x"), Ok("/tmp/out/..x".to_string()));
}
