use marginalia::annotations::{Annotation, CheckKind};
use marginalia::output::{render_text, CheckItem};
use marginalia::scope::Scope;

const HEADER: &str = "The following checks were found near changed code.\n\
Each check shows what changed, where to look, and what to check.\n";

fn report(items: &[&str]) -> String {
    let mut out = HEADER.to_string();
    for item in items {
        out.push_str("\n---\n\n");
        out.push_str(item);
    }
    out
}

fn item(
    file: &str,
    line: usize,
    kind: CheckKind,
    description: &str,
    scope: Option<Scope>,
    changed_ranges: Vec<(usize, usize)>,
) -> CheckItem {
    CheckItem {
        annotation: Annotation {
            file_path: file.to_string(),
            line,
            kind,
            description: description.to_string(),
        },
        scope,
        changed_ranges,
        matched_files: vec![],
        matched_file_ranges: vec![],
        tag_counterparts: vec![],
    }
}

fn scope(start: usize, end: usize, label: &str) -> Option<Scope> {
    Some(Scope {
        start,
        end,
        label: Some(label.to_string()),
    })
}

#[test]
fn empty_checks() {
    let out = render_text(&[], "main");
    assert_eq!(out, "No checks found near changed code.\n");
}

#[test]
fn no_checks() {
    assert_eq!(render_text(&[], "main"), "No checks found near changed code.\n");
}

#[test]
fn scoped_check_with_tree_sitter() {
    let checks = vec![item(
        "src/auth.rs",
        41,
        CheckKind::Check,
        "Verify this unwrap is safe — input is validated on line 12",
        scope(42, 48, "fn parse_token"),
        vec![(45, 46)],
    )];
    assert_eq!(
        render_text(&checks, "main"),
        report(&["src/auth.rs:45-46 changed (in fn parse_token)\n\
check src/auth.rs:42-48\n\
\n\
Verify this unwrap is safe — input is validated on line 12\n"])
    );
}

#[test]
fn scoped_check_without_tree_sitter() {
    let checks = vec![item(
        "src/auth.rs",
        42,
        CheckKind::Check,
        "Verify this unwrap is safe",
        None,
        vec![(45, 46)],
    )];
    assert_eq!(
        render_text(&checks, "main"),
        report(&["src/auth.rs:45-46 changed\n\
check src/auth.rs:42-46\n\
\n\
Verify this unwrap is safe\n"])
    );
}

#[test]
fn file_check() {
    let checks = vec![item(
        "src/api.rs",
        1,
        CheckKind::File,
        "Every handler must check permissions",
        None,
        vec![(15, 20), (38, 38)],
    )];
    assert_eq!(
        render_text(&checks, "main"),
        report(&["src/api.rs:15-20,38 changed\n\
check src/api.rs entirely\n\
\n\
Every handler must check permissions\n"])
    );
}

#[test]
fn all_check() {
    let mut it = item(
        "README.md",
        33,
        CheckKind::All {
            pattern: "src/**/*.rs".to_string(),
        },
        "Make sure the README examples still compile",
        None,
        vec![],
    );
    it.matched_files = vec!["src/auth.rs".to_string(), "src/lib.rs".to_string()];
    it.matched_file_ranges = vec![
        ("src/auth.rs".to_string(), vec![(42, 48)]),
        ("src/lib.rs".to_string(), vec![(5, 10)]),
    ];
    assert_eq!(
        render_text(&[it], "main"),
        report(&["changed (matching src/**/*.rs):\n\
\x20 src/auth.rs:42-48\n\
\x20 src/lib.rs:5-10\n\
check README.md\n\
\n\
Make sure the README examples still compile\n"])
    );
}

#[test]
fn multiline_description() {
    let checks = vec![item(
        "src/access.rs",
        9,
        CheckKind::Check,
        "Make sure this function handles all three cases:\n\
         1. User has no subscription\n\
         2. User has an expired subscription\n\
         3. User has a valid subscription but rate-limited",
        scope(10, 25, "fn check_access"),
        vec![(12, 14)],
    )];
    assert_eq!(
        render_text(&checks, "main"),
        report(&["src/access.rs:12-14 changed (in fn check_access)\n\
check src/access.rs:10-25\n\
\n\
Make sure this function handles all three cases:\n\
1. User has no subscription\n\
2. User has an expired subscription\n\
3. User has a valid subscription but rate-limited\n"])
    );
}

#[test]
fn multiple_checks() {
    let mut all = item(
        "README.md",
        33,
        CheckKind::All {
            pattern: "src/**/*.rs".to_string(),
        },
        "Make sure the README examples still compile",
        None,
        vec![],
    );
    all.matched_files = vec!["src/auth.rs".to_string()];
    all.matched_file_ranges = vec![("src/auth.rs".to_string(), vec![(45, 46)])];
    let checks = vec![
        item(
            "src/auth.rs",
            41,
            CheckKind::Check,
            "Verify this unwrap is safe",
            scope(42, 48, "fn parse_token"),
            vec![(45, 46)],
        ),
        item(
            "src/auth.rs",
            1,
            CheckKind::File,
            "Every handler must check permissions",
            None,
            vec![(45, 46)],
        ),
        all,
    ];
    assert_eq!(
        render_text(&checks, "main"),
        report(&[
            "src/auth.rs:45-46 changed (in fn parse_token)\n\
check src/auth.rs:42-48\n\
\n\
Verify this unwrap is safe\n",
            "src/auth.rs:45-46 changed\n\
check src/auth.rs entirely\n\
\n\
Every handler must check permissions\n",
            "src/auth.rs:45-46 changed (matching src/**/*.rs)\n\
check README.md\n\
\n\
Make sure the README examples still compile\n",
        ])
    );
}

#[test]
fn file_and_all_mix() {
    let mut all = item(
        ".marginalia",
        1,
        CheckKind::All {
            pattern: "*.proto".to_string(),
        },
        "Regenerate protobuf bindings.\n\
         Check that the migration guide is updated.",
        None,
        vec![],
    );
    all.matched_files = vec!["api.proto".to_string()];
    all.matched_file_ranges = vec![("api.proto".to_string(), vec![(1, 10)])];
    let checks = vec![
        item(
            "src/api.rs",
            1,
            CheckKind::File,
            "This module is used by the billing service.\n\
             Any signature change needs a corresponding change in\n\
             billing/client.py.",
            None,
            vec![(15, 20), (38, 38)],
        ),
        all,
    ];
    assert_eq!(
        render_text(&checks, "main"),
        report(&[
            "src/api.rs:15-20,38 changed\n\
check src/api.rs entirely\n\
\n\
This module is used by the billing service.\n\
Any signature change needs a corresponding change in\n\
billing/client.py.\n",
            "api.proto:1-10 changed (matching *.proto)\n\
\n\
Regenerate protobuf bindings.\n\
Check that the migration guide is updated.\n",
        ])
    );
}

#[test]
fn single_line_scope() {
    let checks = vec![item(
        "src/config.rs",
        5,
        CheckKind::Check,
        "This constant must match the server config",
        scope(6, 6, "const MAX_RETRIES"),
        vec![(6, 6)],
    )];
    assert_eq!(
        render_text(&checks, "main"),
        report(&["src/config.rs:6 changed (in const MAX_RETRIES)\n\
check src/config.rs:6\n\
\n\
This constant must match the server config\n"])
    );
}

// ---------------------------------------------------------------------
// Further cases.
// ---------------------------------------------------------------------

#[test]
fn report_layout_follows_readme() {
    let checks = vec![
        item("a.rs", 1, CheckKind::File, "first", None, vec![(1, 1)]),
        item("b.rs", 1, CheckKind::File, "second", None, vec![(2, 2)]),
    ];
    let out = render_text(&checks, "develop");
    assert!(out.starts_with(
        "The following checks were found near changed code.\n\
Each check shows what changed, where to look, and what to check.\n\n---\n\n"
    ));
    assert!(out.contains("first\n\n---\n\nb.rs:2 changed\n"));
    assert!(!out.contains("develop"));
}

#[test]
fn scope_without_label() {
    let checks = vec![item(
        "a.rs",
        3,
        CheckKind::Check,
        "d",
        Some(Scope {
            start: 4,
            end: 9,
            label: None,
        }),
        vec![(5, 5)],
    )];
    assert_eq!(
        render_text(&checks, "main"),
        report(&["a.rs:5 changed\ncheck a.rs:4-9\n\nd\n"])
    );
}

#[test]
fn proximity_range_spans_annotation_and_changes() {
    let checks = vec![item(
        "a.rs",
        20,
        CheckKind::Check,
        "d",
        None,
        vec![(12, 13), (25, 27)],
    )];
    assert_eq!(
        render_text(&checks, "main"),
        report(&["a.rs:12-13,25-27 changed\ncheck a.rs:12-27\n\nd\n"])
    );
}

#[test]
fn tag_check_with_counterparts() {
    let mut it = item(
        "a.rs",
        5,
        CheckKind::Tag {
            name: "Sync".to_string(),
        },
        "keep in sync",
        None,
        vec![],
    );
    it.matched_files = vec!["a.rs".to_string()];
    it.matched_file_ranges = vec![("a.rs".to_string(), vec![(6, 8)])];
    it.tag_counterparts = vec![("a.rs".to_string(), 5), ("b.rs".to_string(), 10)];
    assert_eq!(
        render_text(&[it], "main"),
        report(&["a.rs:6-8 changed (tag Sync)\ncheck:\n  a.rs:5-8\n  b.rs:10\n\nkeep in sync\n"])
    );
}

#[test]
fn tag_check_single_location() {
    let mut it = item(
        "b.rs",
        10,
        CheckKind::Ref {
            name: "Sync".to_string(),
        },
        "",
        None,
        vec![],
    );
    it.tag_counterparts = vec![("b.rs".to_string(), 10)];
    assert_eq!(
        render_text(&[it], "main"),
        report(&["tag Sync activated\ncheck b.rs:10\n\n"])
    );
}

#[test]
fn all_check_without_ranges_lists_files() {
    let mut it = item(
        "docs.md",
        2,
        CheckKind::All {
            pattern: "*.rs".to_string(),
        },
        "line one\nline two",
        None,
        vec![],
    );
    it.matched_files = vec!["x.rs".to_string(), "y.rs".to_string()];
    assert_eq!(
        render_text(&[it], "main"),
        report(&["changed (matching *.rs):\n  x.rs\n  y.rs\ncheck docs.md\n\nline one\nline two\n"])
    );
}
