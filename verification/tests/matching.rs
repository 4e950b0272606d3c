use marginalia::annotations::{Annotation, CheckKind};
use marginalia::diff::{ChangedFile, Hunk};
use marginalia::matching::{
    active_all_annotations, active_annotations, active_tag_annotations, dead_patterns,
    orphan_refs, overlapping_ranges,
};
use marginalia::scope::{language_for_extension, parse, syntax_tree, Scope, SyntaxTree};

fn check_ann(line: usize, desc: &str) -> Annotation {
    Annotation {
        file_path: "test.rs".to_string(),
        line,
        kind: CheckKind::Check,
        description: desc.to_string(),
    }
}

fn file_ann(desc: &str) -> Annotation {
    Annotation {
        file_path: "test.rs".to_string(),
        line: 1,
        kind: CheckKind::File,
        description: desc.to_string(),
    }
}

fn all_ann(file: &str, pattern: &str, desc: &str) -> Annotation {
    Annotation {
        file_path: file.to_string(),
        line: 1,
        kind: CheckKind::All {
            pattern: pattern.to_string(),
        },
        description: desc.to_string(),
    }
}

fn tag_ann(file: &str, line: usize, name: &str, desc: &str) -> Annotation {
    Annotation {
        file_path: file.to_string(),
        line,
        kind: CheckKind::Tag {
            name: name.to_string(),
        },
        description: desc.to_string(),
    }
}

fn ref_ann(file: &str, line: usize, name: &str) -> Annotation {
    Annotation {
        file_path: file.to_string(),
        line,
        kind: CheckKind::Ref {
            name: name.to_string(),
        },
        description: String::new(),
    }
}

fn changed(hunks: Vec<Hunk>) -> ChangedFile {
    ChangedFile {
        path: "test.rs".to_string(),
        hunks,
    }
}

fn hunk(new_start: usize, new_end: usize) -> Hunk {
    Hunk { new_start, new_end }
}

#[test]
fn file_annotation_always_active() {
    let anns = vec![file_ann("check exports")];
    let cf = changed(vec![hunk(100, 105)]);
    let active = active_annotations(&anns, &cf, None);
    assert_eq!(active.len(), 1);
    assert_eq!(active[0].changed_ranges, vec![(100, 105)]);
}

#[test]
fn check_within_proximity() {
    let anns = vec![check_ann(15, "check bounds")];
    let cf = changed(vec![hunk(20, 25)]);
    let active = active_annotations(&anns, &cf, None);
    assert_eq!(active.len(), 1);
    assert_eq!(active[0].changed_ranges, vec![(20, 25)]);
}

#[test]
fn check_outside_proximity() {
    let anns = vec![check_ann(5, "check bounds")];
    let cf = changed(vec![hunk(50, 55)]);
    let active = active_annotations(&anns, &cf, None);
    assert_eq!(active.len(), 0);
}

#[test]
fn semantic_scope_activates() {
    let ann = check_ann(1, "check this function");
    let scope = Some(Scope {
        start: 2,
        end: 10,
        label: None,
    });
    let overlapping = overlapping_ranges(&[(8, 9)], &ann, scope.as_ref());
    assert_eq!(overlapping, vec![(8, 9)]);
}

#[test]
fn semantic_scope_does_not_activate() {
    let ann = check_ann(1, "check this function");
    let scope = Some(Scope {
        start: 2,
        end: 10,
        label: None,
    });
    let overlapping = overlapping_ranges(&[(20, 25)], &ann, scope.as_ref());
    assert!(overlapping.is_empty());
}

#[test]
fn semantic_with_real_tree() {
    let source = "\
// [check] Verify bounds
fn process(x: usize) -> usize {
    if x > 0 {
        x - 1
    } else {
        0
    }
}

fn other() {
    let y = 42;
}
";
    let lang = language_for_extension("rs").unwrap();
    let tree = parse(source, lang).unwrap();
    let st = syntax_tree(&tree).unwrap();

    let anns = vec![check_ann(1, "Verify bounds")];

    // Change inside process() — should activate
    let cf = changed(vec![hunk(4, 4)]);
    let active = active_annotations(&anns, &cf, Some(&st));
    assert_eq!(active.len(), 1);

    // Change inside other() — should NOT activate
    let cf2 = changed(vec![hunk(11, 11)]);
    let active2 = active_annotations(&anns, &cf2, Some(&st));
    assert_eq!(active2.len(), 0);
}

#[test]
fn all_matches_changed_files() {
    let anns = vec![all_ann("README.md", "src/**/*.rs", "update examples")];
    let files = vec![
        ChangedFile {
            path: "src/lib.rs".to_string(),
            hunks: vec![hunk(5, 10)],
        },
        ChangedFile {
            path: "src/main.rs".to_string(),
            hunks: vec![hunk(1, 3)],
        },
    ];
    let active = active_all_annotations(&anns, &files);
    assert_eq!(active.len(), 1);
    assert_eq!(active[0].matched_files, vec!["src/lib.rs", "src/main.rs"]);
    assert_eq!(active[0].matched_file_ranges.len(), 2);
}

#[test]
fn all_does_not_match() {
    let anns = vec![all_ann("README.md", "src/**/*.rs", "update examples")];
    let files = vec![ChangedFile {
        path: "docs/guide.md".to_string(),
        hunks: vec![hunk(1, 5)],
    }];
    let active = active_all_annotations(&anns, &files);
    assert_eq!(active.len(), 0);
}

#[test]
fn dead_pattern_matches_nothing() {
    let anns = vec![all_ann("README.md", "src/**/*.go", "update examples")];
    let files = vec![
        "src/lib.rs".to_string(),
        "src/main.rs".to_string(),
        "README.md".to_string(),
    ];
    let dead = dead_patterns(&anns, &files);
    assert_eq!(dead.len(), 1);
    assert_eq!(dead[0].1, "src/**/*.go");
}

#[test]
fn live_pattern_matches_something() {
    let anns = vec![all_ann("README.md", "src/**/*.rs", "update examples")];
    let files = vec!["src/lib.rs".to_string(), "src/main.rs".to_string()];
    let dead = dead_patterns(&anns, &files);
    assert_eq!(dead.len(), 0);
}

#[test]
fn all_star_pattern() {
    let anns = vec![all_ann(".marginalia", "*.proto", "regenerate bindings")];
    let files = vec![ChangedFile {
        path: "api.proto".to_string(),
        hunks: vec![hunk(1, 10)],
    }];
    let active = active_all_annotations(&anns, &files);
    assert_eq!(active.len(), 1);
}

#[test]
fn orphan_ref_detected() {
    let anns = vec![ref_ann("a.rs", 1, "Foo")];
    let orphans = orphan_refs(&anns);
    assert_eq!(orphans.len(), 1);
    assert_eq!(orphans[0].1, "Foo");
}

#[test]
fn ref_with_matching_tag_not_orphan() {
    let anns = vec![
        tag_ann("a.rs", 1, "Foo", "keep in sync"),
        ref_ann("b.rs", 5, "Foo"),
    ];
    let orphans = orphan_refs(&anns);
    assert_eq!(orphans.len(), 0);
}

#[test]
fn tag_alone_is_fine() {
    let anns = vec![tag_ann("a.rs", 1, "Foo", "keep in sync")];
    let orphans = orphan_refs(&anns);
    assert_eq!(orphans.len(), 0);
}

#[test]
fn tag_activates_all_counterparts() {
    // Two tag annotations with name "Sync", one in a changed file near a change
    let tag_anns = vec![
        tag_ann("a.rs", 5, "Sync", "keep in sync"),
        tag_ann("b.rs", 10, "Sync", "keep in sync"),
    ];
    let cf = ChangedFile {
        path: "a.rs".to_string(),
        hunks: vec![hunk(6, 8)],
    };
    // The annotations from the changed file (a.rs) include the tag
    let file_anns = vec![tag_ann("a.rs", 5, "Sync", "keep in sync")];
    let per_file = vec![(file_anns.as_slice(), &cf, None::<&SyntaxTree>)];

    let active = active_tag_annotations(&tag_anns, &per_file);
    assert_eq!(active.len(), 1);
    assert_eq!(
        active[0].tag_counterparts,
        vec![("a.rs".to_string(), 5), ("b.rs".to_string(), 10)]
    );
}

#[test]
fn tag_does_not_activate_when_no_change_nearby() {
    let tag_anns = vec![
        tag_ann("a.rs", 5, "Sync", "keep in sync"),
        tag_ann("b.rs", 10, "Sync", "keep in sync"),
    ];
    let cf = ChangedFile {
        path: "a.rs".to_string(),
        hunks: vec![hunk(50, 55)],
    };
    let file_anns = vec![tag_ann("a.rs", 5, "Sync", "keep in sync")];
    let per_file = vec![(file_anns.as_slice(), &cf, None::<&SyntaxTree>)];

    let active = active_tag_annotations(&tag_anns, &per_file);
    assert_eq!(active.len(), 0);
}

#[test]
fn ref_triggers_tag_activation() {
    // A tag in a.rs and a ref in b.rs — change near the ref should activate
    let all_anns = vec![
        tag_ann("a.rs", 5, "Sync", "keep in sync"),
        ref_ann("b.rs", 10, "Sync"),
    ];
    let cf = ChangedFile {
        path: "b.rs".to_string(),
        hunks: vec![hunk(11, 13)],
    };
    let file_anns = vec![ref_ann("b.rs", 10, "Sync")];
    let per_file = vec![(file_anns.as_slice(), &cf, None::<&SyntaxTree>)];

    let active = active_tag_annotations(&all_anns, &per_file);
    assert_eq!(active.len(), 1);
    // Representative should be the tag, not the ref
    assert_eq!(active[0].annotation.file_path, "a.rs");
    assert!(matches!(active[0].annotation.kind, CheckKind::Tag { .. }));
    assert_eq!(
        active[0].tag_counterparts,
        vec![("a.rs".to_string(), 5), ("b.rs".to_string(), 10)]
    );
}

// ---------------------------------------------------------------------
// Further cases.
// ---------------------------------------------------------------------

#[test]
fn proximity_window_edges() {
    // Annotation on line 20: the window is lines 10..=30.
    let ann = check_ann(20, "edge");
    assert_eq!(overlapping_ranges(&[(31, 40)], &ann, None), Vec::<(usize, usize)>::new());
    assert_eq!(overlapping_ranges(&[(30, 40)], &ann, None), vec![(30, 40)]);
    assert_eq!(overlapping_ranges(&[(1, 9)], &ann, None), Vec::<(usize, usize)>::new());
    assert_eq!(overlapping_ranges(&[(1, 10)], &ann, None), vec![(1, 10)]);
    // Near the top of the file the window starts at 0.
    let top = check_ann(3, "top");
    assert_eq!(overlapping_ranges(&[(0, 0), (13, 14)], &top, None), vec![(0, 0), (13, 14)]);
    assert_eq!(overlapping_ranges(&[(14, 20)], &top, None), Vec::<(usize, usize)>::new());
}

#[test]
fn overlapping_keeps_order_and_filters() {
    let ann = check_ann(1, "scoped");
    let scope = Scope {
        start: 5,
        end: 8,
        label: Some("fn f".to_string()),
    };
    let ranges = [(1, 4), (3, 5), (6, 6), (8, 12), (9, 12)];
    assert_eq!(
        overlapping_ranges(&ranges, &ann, Some(&scope)),
        vec![(3, 5), (6, 6), (8, 12)]
    );
}

#[test]
fn tag_and_ref_ignored_by_local_activation() {
    let anns = vec![
        tag_ann("test.rs", 5, "Sync", "d"),
        ref_ann("test.rs", 6, "Sync"),
        all_ann("test.rs", "*.rs", "d"),
        check_ann(7, "near"),
    ];
    let cf = changed(vec![hunk(6, 7)]);
    let active = active_annotations(&anns, &cf, None);
    assert_eq!(active.len(), 1);
    assert_eq!(active[0].annotation.line, 7);
    assert_eq!(active[0].scope, None);
}

#[test]
fn check_with_tree_reports_scope() {
    let source = "\
// [check] Verify bounds
fn process(x: usize) -> usize {
    x + 1
}
";
    let lang = language_for_extension("rs").unwrap();
    let tree = parse(source, lang).unwrap();
    let st = syntax_tree(&tree).unwrap();
    let anns = vec![check_ann(1, "Verify bounds")];
    let cf = changed(vec![hunk(3, 3)]);
    let active = active_annotations(&anns, &cf, Some(&st));
    assert_eq!(active.len(), 1);
    assert_eq!(
        active[0].scope,
        Some(Scope {
            start: 2,
            end: 4,
            label: Some("fn process".to_string()),
        })
    );
    assert_eq!(active[0].changed_ranges, vec![(3, 3)]);
}

#[test]
fn all_reports_paths_and_ranges() {
    let anns = vec![
        all_ann("README.md", "src/*.rs", "first"),
        all_ann("README.md", "docs/**", "second"),
    ];
    let files = vec![
        ChangedFile {
            path: "src/a.rs".to_string(),
            hunks: vec![hunk(1, 2), hunk(9, 9)],
        },
        ChangedFile {
            path: "docs/x/y.md".to_string(),
            hunks: vec![hunk(3, 4)],
        },
    ];
    let active = active_all_annotations(&anns, &files);
    assert_eq!(active.len(), 2);
    assert_eq!(active[0].annotation.description, "first");
    assert_eq!(
        active[0].matched_file_ranges,
        vec![("src/a.rs".to_string(), vec![(1, 2), (9, 9)])]
    );
    assert_eq!(active[1].matched_files, vec!["docs/x/y.md"]);
    assert!(active[1].changed_ranges.is_empty());
}

#[test]
fn invalid_glob_is_skipped() {
    let anns = vec![all_ann("README.md", "src/[", "broken")];
    let files = vec![ChangedFile {
        path: "src/[".to_string(),
        hunks: vec![hunk(1, 1)],
    }];
    assert_eq!(active_all_annotations(&anns, &files).len(), 0);
    assert_eq!(dead_patterns(&anns, &["src/[".to_string()]).len(), 0);
}

#[test]
fn orphans_sorted_by_file_then_line() {
    let anns = vec![
        ref_ann("b.rs", 3, "X"),
        ref_ann("a.rs", 9, "Y"),
        tag_ann("c.rs", 1, "Z", "zed"),
        ref_ann("a.rs", 2, "W"),
        ref_ann("c.rs", 4, "Z"),
    ];
    let orphans = orphan_refs(&anns);
    let got: Vec<(String, usize, String)> = orphans
        .iter()
        .map(|(a, n)| (a.file_path.clone(), a.line, n.to_string()))
        .collect();
    assert_eq!(
        got,
        vec![
            ("a.rs".to_string(), 2, "W".to_string()),
            ("a.rs".to_string(), 9, "Y".to_string()),
            ("b.rs".to_string(), 3, "X".to_string()),
        ]
    );
}

#[test]
fn tag_names_in_first_trigger_order() {
    let all = vec![
        tag_ann("a.rs", 1, "One", "first"),
        tag_ann("a.rs", 30, "Two", "second"),
        ref_ann("b.rs", 2, "Three"),
    ];
    let cf = ChangedFile {
        path: "a.rs".to_string(),
        hunks: vec![hunk(1, 40)],
    };
    let file_anns = vec![
        tag_ann("a.rs", 30, "Two", "second"),
        tag_ann("a.rs", 1, "One", "first"),
        tag_ann("a.rs", 31, "Two", "second"),
    ];
    let per_file = vec![(file_anns.as_slice(), &cf, None::<&SyntaxTree>)];
    let active = active_tag_annotations(&all, &per_file);
    assert_eq!(active.len(), 2);
    assert_eq!(active[0].annotation.description, "second");
    assert_eq!(active[0].matched_files, vec!["a.rs", "a.rs"]);
    assert_eq!(active[1].annotation.description, "first");
    assert_eq!(active[1].tag_counterparts, vec![("a.rs".to_string(), 1)]);
}

#[test]
fn tag_name_without_annotation_is_dropped() {
    let all: Vec<Annotation> = vec![];
    let cf = ChangedFile {
        path: "a.rs".to_string(),
        hunks: vec![hunk(1, 2)],
    };
    let file_anns = vec![ref_ann("a.rs", 1, "Ghost")];
    let per_file = vec![(file_anns.as_slice(), &cf, None::<&SyntaxTree>)];
    assert_eq!(active_tag_annotations(&all, &per_file).len(), 0);
}

fn matched_paths(pattern: &str, paths: &[&str]) -> Vec<String> {
    let anns = vec![all_ann("README.md", pattern, "d")];
    let files: Vec<ChangedFile> = paths
        .iter()
        .map(|p| ChangedFile {
            path: p.to_string(),
            hunks: vec![hunk(1, 1)],
        })
        .collect();
    let active = active_all_annotations(&anns, &files);
    match active.first() {
        Some(item) => item.matched_files.clone(),
        None => vec![],
    }
}

#[test]
fn glob_table_any_depth() {
    assert_eq!(
        matched_paths("src/**/*.rs", &["src/lib.rs", "src/a/b/c.rs", "lib.rs", "src/x.py"]),
        vec!["src/lib.rs", "src/a/b/c.rs"]
    );
}

#[test]
fn glob_table_root_only() {
    assert_eq!(
        matched_paths("*.proto", &["api.proto", "proto/api.proto"]),
        vec!["api.proto"]
    );
}

#[test]
fn glob_table_everything_under() {
    assert_eq!(
        matched_paths("docs/**", &["docs/a.md", "docs/x/y/z.png", "README.md", "src/docs/a.md"]),
        vec!["docs/a.md", "docs/x/y/z.png"]
    );
}

#[test]
fn glob_table_exact() {
    assert_eq!(
        matched_paths("README.md", &["README.md", "docs/README.md"]),
        vec!["README.md"]
    );
}

#[test]
fn glob_table_directly_in() {
    assert_eq!(
        matched_paths("src/api/*.py", &["src/api/users.py", "src/api/v1/users.py", "src/api/users.rs"]),
        vec!["src/api/users.py"]
    );
}

#[test]
fn invalid_patterns_are_reported() {
    let anns = vec![
        all_ann("README.md", "src/[", "broken"),
        all_ann("README.md", "src/*.rs", "fine"),
        check_ann(3, "not all"),
        all_ann("docs.md", "a**b", "broken too"),
    ];
    let invalid = marginalia::matching::invalid_patterns(&anns);
    let got: Vec<(&str, &str)> = invalid.iter().map(|(a, p)| (a.file_path.as_str(), *p)).collect();
    assert_eq!(got, vec![("README.md", "src/["), ("docs.md", "a**b")]);
}
