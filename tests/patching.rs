use nix_config_merger::ast_utils::{check_spans, document_assignments, patch_configs};
use nix_config_merger::patch::{patch, Assignment};
use nix_config_merger::MergeError;

fn asg(path: &str, start: usize, end: usize, text: &str) -> Assignment {
    Assignment { path: path.to_string(), start, end, text: text.as_bytes().to_vec() }
}

#[test]
fn patch_mode_changes_only_one_span() {
    let old = "{\n  # keep me\n  a = 1;\n  b   =   2;\n  c = 3;\n}\n";
    let new = "{ a = 1; b = 5; c = 3; }";
    let (out, warn) = patch_configs(old, new).ok().unwrap();
    assert_eq!(out, "{\n  # keep me\n  a = 1;\n  b = 5;\n  c = 3;\n}\n");
    assert!(!warn);
}

#[test]
fn patch_mode_inserts_additions_before_last_brace() {
    let (out, warn) = patch_configs("{ a = 1; }", "{ b = 2; c = 3; }").ok().unwrap();
    assert_eq!(out, "{ a = 1; \nb = 2;\nc = 3;}");
    assert!(!warn);
}

#[test]
fn patch_mode_nested_key() {
    let old = "{ services.nginx = { enable = true; }; }";
    let new = "{ services.nginx.enable = false; }";
    let (out, _) = patch_configs(old, new).ok().unwrap();
    assert_eq!(out, "{ services.nginx = { services.nginx.enable = false; }; }");
}

#[test]
fn patch_mode_identical_documents() {
    let d = "{ x = 1; y = { z = \"q\"; }; }";
    let (out, warn) = patch_configs(d, d).ok().unwrap();
    assert_eq!(out, d);
    assert!(!warn);
}

#[test]
fn patch_without_brace_appends_and_warns() {
    let old = b"x = 1".to_vec();
    let olds = vec![asg("x", 0, 5, "x = 1")];
    let news = vec![asg("y", 0, 5, "y = 2;")];
    let (out, warn) = patch(&old, &olds, &news);
    assert_eq!(out, b"x = 1\ny = 2;".to_vec());
    assert!(warn);
}

#[test]
fn patch_replaces_spans_from_any_position() {
    let old = b"{ a = 1; bb = 2; }".to_vec();
    let olds = vec![asg("a", 2, 8, "a = 1;"), asg("bb", 9, 16, "bb = 2;")];
    let news = vec![asg("bb", 0, 0, "bb = 22;"), asg("a", 0, 0, "a = 10;")];
    let (out, warn) = patch(&old, &olds, &news);
    assert_eq!(String::from_utf8(out).unwrap(), "{ a = 10; bb = 22; }");
    assert!(!warn);
}

#[test]
fn assignments_have_spans_and_text() {
    let xs = document_assignments("{ a = 1; b.c = 2; }").ok().unwrap();
    assert_eq!(xs.len(), 2);
    assert_eq!(xs[0].path, "a");
    assert_eq!((xs[0].start, xs[0].end), (2, 8));
    assert_eq!(xs[0].text, b"a = 1;".to_vec());
    assert_eq!(xs[1].path, "b.c");
    assert!(check_spans(19, &xs));
    assert!(!check_spans(10, &xs));
}

#[test]
fn duplicate_assignment_keeps_last() {
    let xs = document_assignments("{ a = 1; b = 2; a = 3; }").ok().unwrap();
    assert_eq!(xs.len(), 2);
    assert_eq!(xs[0].path, "b");
    assert_eq!(xs[1].path, "a");
    assert_eq!(xs[1].text, b"a = 3;".to_vec());
    assert_eq!((xs[1].start, xs[1].end), (16, 22));
}

#[test]
fn patch_mode_reports_errors() {
    assert!(matches!(patch_configs("{ a = ", "{ }"), Err(MergeError::Parse(_))));
    assert!(matches!(patch_configs("{ }", "42"), Err(MergeError::Shape)));
}
