use satori::validate::{
    reject_control_chars, validate_path, validate_path_within_root, validate_resource_id,
    InputError,
};

#[test]
fn control_chars_rejected_with_code_point() {
    let e = reject_control_chars("ab\u{1}c").unwrap_err();
    assert!(matches!(e, InputError::ControlChar('\u{1}')));
    assert_eq!(e.message(), "invalid input: control character (U+0001) not allowed");
}

#[test]
fn del_and_c1_controls_rejected() {
    let e = reject_control_chars("x\u{7f}").unwrap_err();
    assert_eq!(e.message(), "invalid input: control character (U+007F) not allowed");
    let e = reject_control_chars("x\u{9f}").unwrap_err();
    assert_eq!(e.message(), "invalid input: control character (U+009F) not allowed");
}

#[test]
fn first_control_char_is_reported() {
    let e = reject_control_chars("a\tb\nc").unwrap_err();
    assert_eq!(e.message(), "invalid input: control character (U+0009) not allowed");
}

#[test]
fn plain_text_accepted() {
    assert!(reject_control_chars("hello wörld ✓").is_ok());
    assert!(reject_control_chars("").is_ok());
}

#[test]
fn resource_id_rejects_query_chars() {
    let e = validate_resource_id("job?x=1").unwrap_err();
    assert!(matches!(e, InputError::ForbiddenIdChar('?')));
    assert_eq!(
        e.message(),
        "invalid resource id: '?' not allowed (possible embedded query or encoding)"
    );
    assert!(matches!(validate_resource_id("a#b").unwrap_err(), InputError::ForbiddenIdChar('#')));
    assert!(matches!(validate_resource_id("a%20").unwrap_err(), InputError::ForbiddenIdChar('%')));
}

#[test]
fn resource_id_checks_control_chars_first() {
    assert!(matches!(validate_resource_id("?\u{0}").unwrap_err(), InputError::ControlChar('\u{0}')));
}

#[test]
fn resource_id_accepted() {
    assert!(validate_resource_id("job-1234_abc").is_ok());
}

#[test]
fn path_with_percent_rejected() {
    let e = validate_path("docs/a%2e%2e").unwrap_err();
    assert!(matches!(e, InputError::PercentInPath));
    assert_eq!(e.message(), "invalid path: '%' not allowed (possible pre-encoded string)");
}

#[test]
fn path_with_parent_component_rejected() {
    for p in ["../etc", "a/../b", "a/..", "..", "/x/../../y"] {
        let e = validate_path(p).unwrap_err();
        assert!(matches!(e, InputError::ParentTraversal), "{p}");
        assert_eq!(e.message(), "invalid path: '..' traversal not allowed");
    }
}

#[test]
fn path_with_dots_in_names_accepted() {
    for p in ["a..b", "..a/b", "a/b..", "./specs", "/abs/path/file.md", "a/./b", "..."] {
        assert_eq!(validate_path(p).unwrap(), p);
    }
}

#[test]
fn path_control_char_rejected() {
    assert!(matches!(validate_path("a\u{1b}b").unwrap_err(), InputError::ControlChar('\u{1b}')));
}

#[test]
fn path_within_root_accepted() {
    let r = validate_path_within_root(
        "specs/a.md",
        Ok("/home/u/pack/specs/a.md".to_string()),
        ".",
        Ok("/home/u/pack".to_string()),
    );
    assert_eq!(r.unwrap(), "/home/u/pack/specs/a.md");
}

#[test]
fn path_equal_to_root_accepted() {
    let r = validate_path_within_root("x", Ok("/a/b".to_string()), "y", Ok("/a/b/".to_string()));
    assert_eq!(r.unwrap(), "/a/b");
}

#[test]
fn path_outside_root_rejected_componentwise() {
    let e = validate_path_within_root("x", Ok("/a/bc".to_string()), "y", Ok("/a/b".to_string()))
        .unwrap_err();
    assert_eq!(e.message(), "path /a/bc escapes root /a/b");
    assert!(matches!(e, InputError::EscapesRoot { .. }));
}

#[test]
fn unresolved_path_reported() {
    let e = validate_path_within_root(
        "missing.md",
        Err("No such file or directory (os error 2)".to_string()),
        "/root",
        Ok("/root".to_string()),
    )
    .unwrap_err();
    assert_eq!(
        e.message(),
        "path not found or invalid: missing.md (No such file or directory (os error 2))"
    );
}

#[test]
fn unresolved_root_reported() {
    let e = validate_path_within_root(
        "a",
        Ok("/a".to_string()),
        "/nope",
        Err("No such file or directory (os error 2)".to_string()),
    )
    .unwrap_err();
    assert_eq!(e.message(), "root path not found: /nope (No such file or directory (os error 2))");
}

#[test]
fn containment_ignores_dot_segments_and_repeated_slashes() {
    let ok = validate_path_within_root("p", Ok("/a/./b//c".to_string()), "r", Ok("/a//b".to_string()));
    assert_eq!(ok.unwrap(), "/a/./b//c");
    let bad = validate_path_within_root("p", Ok("relative/x".to_string()), "r", Ok("/relative".to_string()));
    assert!(matches!(bad.unwrap_err(), InputError::EscapesRoot { .. }));
}
