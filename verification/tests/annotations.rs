use marginalia::annotations::{extract_annotations, CheckKind};
use marginalia::comments::Comment;

fn comment(line: usize, text: &str) -> Comment {
    Comment {
        line,
        text: text.to_string(),
    }
}

#[test]
fn parse_check() {
    let comments = vec![comment(5, "[check] verify bounds are checked")];
    let anns = extract_annotations(&comments, "src/lib.rs");
    assert_eq!(anns.len(), 1);
    assert_eq!(anns[0].kind, CheckKind::Check);
    assert_eq!(anns[0].description, "verify bounds are checked");
    assert_eq!(anns[0].line, 5);
}

#[test]
fn parse_file_check() {
    let comments = vec![comment(1, "[check:file] all exports must have docs")];
    let anns = extract_annotations(&comments, "src/lib.rs");
    assert_eq!(anns.len(), 1);
    assert_eq!(anns[0].kind, CheckKind::File);
    assert_eq!(anns[0].description, "all exports must have docs");
}

#[test]
fn parse_all_check() {
    let comments = vec![comment(3, "[check:all src/**/*.rs] Update examples")];
    let anns = extract_annotations(&comments, "README.md");
    assert_eq!(anns.len(), 1);
    assert_eq!(
        anns[0].kind,
        CheckKind::All {
            pattern: "src/**/*.rs".to_string()
        }
    );
    assert_eq!(anns[0].description, "Update examples");
    assert_eq!(anns[0].file_path, "README.md");
}

#[test]
fn parse_all_multiline() {
    let comments = vec![
        comment(1, "[check:all *.proto] Regenerate protobuf bindings."),
        comment(2, "Check that the migration guide is updated."),
    ];
    let anns = extract_annotations(&comments, "docs/proto.md");
    assert_eq!(anns.len(), 1);
    assert_eq!(
        anns[0].description,
        "Regenerate protobuf bindings.\nCheck that the migration guide is updated."
    );
}

#[test]
fn ignores_non_check_comments() {
    let comments = vec![
        comment(1, "this is a regular comment"),
        comment(2, "TODO: fix this"),
        comment(3, "[check] verify something"),
    ];
    let anns = extract_annotations(&comments, "foo.rs");
    assert_eq!(anns.len(), 1);
    assert_eq!(anns[0].line, 3);
}

#[test]
fn unknown_variant_warns_and_skips() {
    let comments = vec![comment(1, "[check:bogus] something")];
    let anns = extract_annotations(&comments, "foo.rs");
    assert_eq!(anns.len(), 0);
}

#[test]
fn multiline_continuation() {
    let comments = vec![
        comment(5, "[check] Make sure this handles all three cases:"),
        comment(6, "1. User has no subscription"),
        comment(7, "2. User has an expired subscription"),
        comment(8, "3. User has a valid subscription but rate-limited"),
    ];
    let anns = extract_annotations(&comments, "src/lib.rs");
    assert_eq!(anns.len(), 1);
    assert_eq!(anns[0].line, 5);
    assert_eq!(
        anns[0].description,
        "Make sure this handles all three cases:\n\
         1. User has no subscription\n\
         2. User has an expired subscription\n\
         3. User has a valid subscription but rate-limited"
    );
}

#[test]
fn multiline_with_blank_comment_line() {
    let comments = vec![
        comment(1, "[check:file] This module is used by billing."),
        comment(2, "Any signature change needs a corresponding"),
        comment(3, "change in billing/client.py."),
        comment(4, ""),
        comment(5, "Also bump the version in the API schema."),
    ];
    let anns = extract_annotations(&comments, "src/api.rs");
    assert_eq!(anns.len(), 1);
    assert_eq!(
        anns[0].description,
        "This module is used by billing.\n\
         Any signature change needs a corresponding\n\
         change in billing/client.py.\n\
         \n\
         Also bump the version in the API schema."
    );
}

#[test]
fn multiline_stops_at_gap() {
    let comments = vec![
        comment(5, "[check] first check"),
        comment(6, "continuation"),
        comment(10, "unrelated comment"),
    ];
    let anns = extract_annotations(&comments, "foo.rs");
    assert_eq!(anns.len(), 1);
    assert_eq!(anns[0].description, "first check\ncontinuation");
}

#[test]
fn multiline_stops_at_new_check() {
    let comments = vec![
        comment(5, "[check] first check"),
        comment(6, "continuation of first"),
        comment(7, "[check] second check"),
        comment(8, "continuation of second"),
    ];
    let anns = extract_annotations(&comments, "foo.rs");
    assert_eq!(anns.len(), 2);
    assert_eq!(anns[0].description, "first check\ncontinuation of first");
    assert_eq!(anns[0].line, 5);
    assert_eq!(anns[1].description, "second check\ncontinuation of second");
    assert_eq!(anns[1].line, 7);
}

#[test]
fn single_line_still_works() {
    let comments = vec![
        comment(1, "some comment"),
        comment(5, "[check] simple check"),
        comment(10, "another comment"),
    ];
    let anns = extract_annotations(&comments, "foo.rs");
    assert_eq!(anns.len(), 1);
    assert_eq!(anns[0].description, "simple check");
}

#[test]
fn description_on_next_line() {
    let comments = vec![
        comment(5, "[check]"),
        comment(6, "The description starts here"),
        comment(7, "and continues here."),
    ];
    let anns = extract_annotations(&comments, "foo.rs");
    assert_eq!(anns.len(), 1);
    assert_eq!(
        anns[0].description,
        "The description starts here\nand continues here."
    );
}

#[test]
fn does_not_match_tagref() {
    let comments = vec![
        comment(1, "[tag:FooBar] This is a tagref, not a check"),
        comment(2, "[ref:FooBar]"),
        comment(3, "[check] This is a check"),
    ];
    let anns = extract_annotations(&comments, "foo.rs");
    assert_eq!(anns.len(), 1);
    assert_eq!(anns[0].line, 3);
}

#[test]
fn parse_tag_check() {
    let comments = vec![comment(5, "[check:tag FooBar] Keep in sync")];
    let anns = extract_annotations(&comments, "src/lib.rs");
    assert_eq!(anns.len(), 1);
    assert_eq!(
        anns[0].kind,
        CheckKind::Tag {
            name: "FooBar".to_string()
        }
    );
    assert_eq!(anns[0].description, "Keep in sync");
    assert_eq!(anns[0].line, 5);
}

#[test]
fn parse_tag_multiline() {
    let comments = vec![
        comment(1, "[check:tag SyncPoint] These must match."),
        comment(2, "Update both sides when changing either."),
    ];
    let anns = extract_annotations(&comments, "src/a.rs");
    assert_eq!(anns.len(), 1);
    assert_eq!(
        anns[0].kind,
        CheckKind::Tag {
            name: "SyncPoint".to_string()
        }
    );
    assert_eq!(
        anns[0].description,
        "These must match.\nUpdate both sides when changing either."
    );
}

#[test]
fn tag_stops_continuation_at_new_check() {
    let comments = vec![
        comment(1, "[check:tag Foo] first"),
        comment(2, "continuation"),
        comment(3, "[check:tag Bar] second"),
    ];
    let anns = extract_annotations(&comments, "foo.rs");
    assert_eq!(anns.len(), 2);
    assert_eq!(
        anns[0].kind,
        CheckKind::Tag {
            name: "Foo".to_string()
        }
    );
    assert_eq!(anns[0].description, "first\ncontinuation");
    assert_eq!(
        anns[1].kind,
        CheckKind::Tag {
            name: "Bar".to_string()
        }
    );
    assert_eq!(anns[1].description, "second");
}

#[test]
fn parse_ref_check() {
    let comments = vec![comment(5, "[check:ref FooBar]")];
    let anns = extract_annotations(&comments, "src/lib.rs");
    assert_eq!(anns.len(), 1);
    assert_eq!(
        anns[0].kind,
        CheckKind::Ref {
            name: "FooBar".to_string()
        }
    );
    assert_eq!(anns[0].description, "");
    assert_eq!(anns[0].line, 5);
}

#[test]
fn ref_ignores_continuation() {
    let comments = vec![
        comment(1, "[check:ref Sync]"),
        comment(2, "This comment is not part of the ref"),
        comment(3, "[check] This is a separate check"),
    ];
    let anns = extract_annotations(&comments, "foo.rs");
    assert_eq!(anns.len(), 2);
    assert_eq!(
        anns[0].kind,
        CheckKind::Ref {
            name: "Sync".to_string()
        }
    );
    assert_eq!(anns[0].description, "");
    assert_eq!(anns[1].kind, CheckKind::Check);
    assert_eq!(anns[1].line, 3);
}

#[test]
fn ref_stops_tag_continuation() {
    let comments = vec![
        comment(1, "[check:tag Foo] description"),
        comment(2, "continuation"),
        comment(3, "[check:ref Bar]"),
    ];
    let anns = extract_annotations(&comments, "foo.rs");
    assert_eq!(anns.len(), 2);
    assert_eq!(anns[0].description, "description\ncontinuation");
    assert_eq!(
        anns[1].kind,
        CheckKind::Ref {
            name: "Bar".to_string()
        }
    );
}

#[test]
fn all_pattern_is_trimmed_and_spans_to_first_bracket() {
    let comments = vec![comment(1, "[check:all   docs/**  ]   Review the docs   ")];
    let anns = extract_annotations(&comments, "a.md");
    assert_eq!(anns.len(), 1);
    assert_eq!(
        anns[0].kind,
        CheckKind::All {
            pattern: "docs/**".to_string()
        }
    );
    assert_eq!(anns[0].description, "Review the docs");
}

#[test]
fn all_without_pattern_is_skipped() {
    let comments = vec![comment(1, "[check:all] nothing"), comment(2, "[check:all ]")];
    let anns = extract_annotations(&comments, "a.md");
    assert_eq!(anns.len(), 0);
}

#[test]
fn tag_name_runs_to_last_bracket_of_word() {
    let comments = vec![comment(1, "[check:tag a]b] rest")];
    let anns = extract_annotations(&comments, "a.rs");
    assert_eq!(anns.len(), 1);
    assert_eq!(
        anns[0].kind,
        CheckKind::Tag {
            name: "a]b".to_string()
        }
    );
    assert_eq!(anns[0].description, "rest");
}

#[test]
fn unknown_variant_still_stops_continuation() {
    let comments = vec![
        comment(1, "[check] first"),
        comment(2, "[check:bogus] x"),
        comment(3, "[check:b-x] y"),
    ];
    let anns = extract_annotations(&comments, "a.rs");
    assert_eq!(anns.len(), 1);
    assert_eq!(anns[0].description, "first");
}

#[test]
fn non_word_variant_is_continuation_text() {
    let comments = vec![comment(1, "[check] first"), comment(2, "[check:b-x] y")];
    let anns = extract_annotations(&comments, "a.rs");
    assert_eq!(anns.len(), 1);
    assert_eq!(anns[0].description, "first\n[check:b-x] y");
}

#[test]
fn unknown_variants_are_reported() {
    let comments = vec![
        comment(1, "[check:bogus] something"),
        comment(2, "[check:all] no pattern"),
        comment(3, "[check:file] fine"),
        comment(5, "[check] fine"),
        comment(6, "[check:tag Foo] fine"),
        comment(7, "plain text"),
    ];
    let warnings = marginalia::annotations::unknown_variants(&comments);
    assert_eq!(warnings, vec![(1, "bogus".to_string()), (2, "all".to_string())]);
    let anns = extract_annotations(&comments, "foo.rs");
    let lines: Vec<usize> = anns.iter().map(|a| a.line).collect();
    assert_eq!(lines, vec![3, 5, 6]);
}
