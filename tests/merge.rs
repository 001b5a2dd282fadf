use nix_config_merger::ast_utils::{extract_kv_pairs, strip_body};
use nix_config_merger::document::{flatten, Binding, Document, Value};
use nix_config_merger::merger::{merge_maps, split_key};
use nix_config_merger::path_normalizer::normalize_path;
use nix_config_merger::{merge_configs, merge_documents, MergeError};

fn s(x: &str) -> String {
    x.to_string()
}

fn leaf(p: &str, e: &str) -> Binding {
    Binding { path: s(p), value: Value::Expr(s(e)) }
}

fn attrs(p: &str, bs: Vec<Binding>) -> Binding {
    Binding { path: s(p), value: Value::Attrs(bs) }
}

fn doc(bs: Vec<Binding>) -> Document {
    Document { header: None, body: bs }
}

#[test]
fn round_trip_scenario() {
    let old = "{ services.nginx.enable = true; }";
    let new = "{ services.nginx.enable = false; services.nginx.port = 8080; }";
    let out = merge_configs(old, new).ok().unwrap();
    assert_eq!(
        out,
        "{\n  services = {\n    nginx = {\n      enable = false;\n      port = 8080;\n    };\n  };\n}\n"
    );
    let (_, flat) = extract_kv_pairs(&out).ok().unwrap();
    assert_eq!(
        flat,
        vec![(s("services.nginx.enable"), s("false")), (s("services.nginx.port"), s("8080"))]
    );
}

#[test]
fn addition_scenario() {
    let out = merge_configs("{ a = 1; }", "{ b = 2; }").ok().unwrap();
    assert_eq!(out, "{\n  a = 1;\n  b = 2;\n}\n");
    assert!(out.contains("a = 1;"));
    assert!(out.contains("b = 2;"));
}

#[test]
fn header_preservation_scenario() {
    let out = merge_configs("{ pkgs, ... }: { x = 1; }", "{ x = 2; }").ok().unwrap();
    assert!(out.starts_with("{ pkgs, ... }:"));
    assert_eq!(out, "{ pkgs, ... }: {\n  x = 2;\n}\n");
}

#[test]
fn new_header_used_when_old_has_none() {
    let out = merge_configs("{ x = 1; }", "{ lib }: { y = 2; }").ok().unwrap();
    assert_eq!(out, "{ lib }: {\n  x = 1;\n  y = 2;\n}\n");
}

#[test]
fn nested_lambdas_keep_whole_header() {
    let (h, m) = extract_kv_pairs("{ pkgs }: { lib }: { a = 1; }").ok().unwrap();
    assert_eq!(h, Some(s("{ pkgs }: { lib }: ")));
    assert_eq!(m, vec![(s("a"), s("1"))]);
}

#[test]
fn self_merge_keeps_document() {
    let d = "{ a.b = 1; c = { d = \"x\"; e = [ 1 2 ]; }; f = true; }";
    let out = merge_configs(d, d).ok().unwrap();
    let (_, before) = extract_kv_pairs(d).ok().unwrap();
    let (_, after) = extract_kv_pairs(&out).ok().unwrap();
    assert_eq!(before, after);
}

#[test]
fn new_wins_on_conflict() {
    let out = merge_configs("{ a = 1; b = 5; }", "{ a = 2; }").ok().unwrap();
    assert_eq!(out, "{\n  a = 2;\n  b = 5;\n}\n");
}

#[test]
fn leaf_replaced_by_subtree() {
    let out = merge_configs("{ a = 1; }", "{ a.b = 2; a.c = 3; }").ok().unwrap();
    assert_eq!(out, "{\n  a = {\n    b = 2;\n    c = 3;\n  };\n}\n");
}

#[test]
fn subtree_replaced_by_leaf() {
    let out = merge_configs("{ a.b = 2; a.c = 3; z = 0; }", "{ a = 1; }").ok().unwrap();
    assert_eq!(out, "{\n  a = 1;\n  z = 0;\n}\n");
}

#[test]
fn blank_line_between_blocks_only() {
    let out = merge_configs("{ a = { x = 1; y = 2; }; b = { x = 1; y = 2; }; c = 3; }", "{ }").ok().unwrap();
    assert_eq!(
        out,
        "{\n  a = {\n    x = 1;\n    y = 2;\n  };\n\n  b = {\n    x = 1;\n    y = 2;\n  };\n\n  c = 3;\n}\n"
    );
}

#[test]
fn shorthand_only_one_level() {
    let out = merge_configs("{ a.b.c = 1; }", "{ }").ok().unwrap();
    assert_eq!(out, "{\n  a = {\n    b.c = 1;\n  };\n}\n");
}

#[test]
fn parse_error_is_reported() {
    match merge_configs("{ a = ; }", "{ }") {
        Err(MergeError::Parse(errs)) => assert!(!errs.is_empty()),
        _ => panic!("expected a parse error"),
    }
    match merge_configs("{ }", "{ a = 1 }") {
        Err(MergeError::Parse(errs)) => assert!(!errs.is_empty()),
        _ => panic!("expected a parse error"),
    }
}

#[test]
fn shape_error_is_reported() {
    assert!(matches!(merge_configs("[ 1 2 ]", "{ }"), Err(MergeError::Shape)));
    assert!(matches!(merge_configs("{ }", "x: x + 1"), Err(MergeError::Shape)));
}

#[test]
fn last_binding_wins_in_flattening() {
    let (_, m) = extract_kv_pairs("{ a = 1; b = 2; a = 3; }").ok().unwrap();
    assert_eq!(m, vec![(s("a"), s("3")), (s("b"), s("2"))]);
    let d = doc(vec![leaf("a", "1"), leaf("b", "2"), leaf("a", "3")]);
    assert_eq!(flatten(&d.body), vec![(s("a"), s("3")), (s("b"), s("2"))]);
}

#[test]
fn flatten_nested_bindings() {
    let d = doc(vec![attrs("x.y", vec![leaf("z", "1"), attrs("w", vec![leaf("v", "true")])]), leaf("q", "\"s\"")]);
    assert_eq!(
        flatten(&d.body),
        vec![(s("x.y.z"), s("1")), (s("x.y.w.v"), s("true")), (s("q"), s("\"s\""))]
    );
}

#[test]
fn merge_documents_direct() {
    let mut old = doc(vec![leaf("a", "1")]);
    old.header = Some(s("args: "));
    let new = doc(vec![leaf("b", "2")]);
    assert_eq!(merge_documents(&old, &new), "args: {\n  a = 1;\n  b = 2;\n}\n");
}

#[test]
fn merge_maps_text() {
    let out = merge_maps(vec![(s("a.b"), s("1"))], vec![(s("a.c"), s("2"))]);
    assert_eq!(out, "{\n  a = {\n    b = 1;\n    c = 2;\n  };\n}\n");
}

#[test]
fn split_key_segments() {
    assert_eq!(split_key(&s("a.b.c")), vec![s("a"), s("b"), s("c")]);
    assert_eq!(split_key(&s("a")), vec![s("a")]);
    assert_eq!(split_key(&s("")), vec![s("")]);
}

#[test]
fn normalize_path_dots() {
    assert_eq!(normalize_path(&vec![s("a"), s("b")]), "a.b");
    assert_eq!(normalize_path(&vec![]), "");
}

#[test]
fn strip_body_cases() {
    assert_eq!(strip_body(&s("x: { }"), &s("{ }")), "x: ");
    assert_eq!(strip_body(&s("x: { }"), &s("{ a }")), "");
}

#[test]
fn extract_quoted_path() {
    let (h, m) = extract_kv_pairs("{ \"a b\".c = 1; }").ok().unwrap();
    assert_eq!(m, vec![(s("\"a b\".c"), s("1"))]);
    assert!(h.is_none());
}
