use azenv::envs::{apply_edits, expected_names, reconcile, Env};
use azenv::webapp::AppserviceEnvVar;

fn names(v: &[&str]) -> Vec<String> {
    v.iter().map(|s| s.to_string()).collect()
}

fn pairs(v: &[(&str, &str)]) -> Vec<AppserviceEnvVar> {
    v.iter()
        .map(|(n, val)| AppserviceEnvVar { name: n.to_string(), value: val.to_string() })
        .collect()
}

fn env(name: &str, value: Option<&str>, is_expected: bool) -> Env {
    Env::new(name.to_string(), value.map(|v| v.to_string()), is_expected)
}

#[test]
fn reconcile_merges_baseline_and_remote() {
    let b = names(&["A", "B"]);
    let r = pairs(&[("B", "1"), ("C", "2")]);
    let out = reconcile(&b, &r);
    assert_eq!(
        out,
        vec![
            env("A", None, true),
            env("B", Some("1"), true),
            env("C", Some("2"), false),
        ]
    );
}

#[test]
fn reconcile_baseline_only_names_have_no_value() {
    let b = names(&["ONLY_EXPECTED"]);
    let r = pairs(&[]);
    let out = reconcile(&b, &r);
    assert_eq!(out, vec![env("ONLY_EXPECTED", None, true)]);
}

#[test]
fn reconcile_remote_only_names_are_unexpected() {
    let b = names(&[]);
    let r = pairs(&[("DRIFT", "x")]);
    let out = reconcile(&b, &r);
    assert_eq!(out, vec![env("DRIFT", Some("x"), false)]);
}

#[test]
fn reconcile_overlap_keeps_remote_value_and_expected_flag() {
    let b = names(&["SHARED"]);
    let r = pairs(&[("SHARED", "live")]);
    let out = reconcile(&b, &r);
    assert_eq!(out, vec![env("SHARED", Some("live"), true)]);
}

#[test]
fn reconcile_with_empty_baseline_after_failed_load() {
    let b = expected_names(None);
    assert!(b.is_empty());
    let r = pairs(&[("B", "1"), ("A", "2")]);
    let out = reconcile(&b, &r);
    assert_eq!(out, vec![env("A", Some("2"), false), env("B", Some("1"), false)]);
}

#[test]
fn expected_names_keeps_a_loaded_baseline() {
    let b = expected_names(Some(names(&["A"])));
    assert_eq!(b, names(&["A"]));
}

#[test]
fn reconcile_sorts_by_byte_order() {
    // Upper-case letters sort before lower-case ones byte-wise.
    let b = names(&["a"]);
    let r = pairs(&[("B", "1")]);
    let out = reconcile(&b, &r);
    assert_eq!(out, vec![env("B", Some("1"), false), env("a", None, true)]);
}

#[test]
fn reconcile_counts_the_union_of_names() {
    let b = names(&["A", "B", "C"]);
    let r = pairs(&[("B", "1"), ("D", "2")]);
    let out = reconcile(&b, &r);
    assert_eq!(out.len(), 4);
    for w in out.windows(2) {
        assert!(w[0].name < w[1].name);
    }
}

#[test]
fn reconcile_tolerates_repeated_baseline_names() {
    let b = names(&["A", "A"]);
    let r = pairs(&[]);
    let out = reconcile(&b, &r);
    assert_eq!(out, vec![env("A", None, true)]);
}

#[test]
fn reconcile_of_nothing_is_empty() {
    let out = reconcile(&names(&[]), &pairs(&[]));
    assert!(out.is_empty());
}

#[test]
fn apply_edits_drops_valueless_entries() {
    let edits = vec![env("A", None, true), env("B", Some("1"), true)];
    let sent = apply_edits(&edits);
    assert_eq!(sent.len(), 1);
    assert_eq!(sent[0].name, "B");
    assert_eq!(sent[0].value, "1");
}

#[test]
fn apply_edits_keeps_an_explicit_empty_string() {
    let edits = vec![env("X", Some(""), true)];
    let sent = apply_edits(&edits);
    assert_eq!(sent.len(), 1);
    assert_eq!(sent[0].name, "X");
    assert_eq!(sent[0].value, "");
}

#[test]
fn apply_edits_of_an_unedited_view_resends_the_remote_mapping() {
    let b = names(&["A", "B"]);
    let r = pairs(&[("B", "1"), ("C", "2")]);
    let out = reconcile(&b, &r);
    let sent = apply_edits(&out);
    assert_eq!(sent.len(), 2);
    assert_eq!((sent[0].name.as_str(), sent[0].value.as_str()), ("B", "1"));
    assert_eq!((sent[1].name.as_str(), sent[1].value.as_str()), ("C", "2"));
}

#[test]
fn env_new_sets_every_field() {
    let e = Env::new("N".to_string(), Some("v".to_string()), false);
    assert_eq!(e.name, "N");
    assert_eq!(e.value, Some("v".to_string()));
    assert!(!e.is_expected);
}
