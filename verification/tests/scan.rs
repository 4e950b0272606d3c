use marginalia::annotations::{Annotation, CheckKind};
use marginalia::scan::{contains_all_marker, file_all_annotations, file_annotations, keep_all_kind};

#[test]
fn marker_found_anywhere() {
    assert!(contains_all_marker(b"[check:all *.rs] x"));
    assert!(contains_all_marker(b"// some text [check:all src/**] y"));
    assert!(contains_all_marker(b"ends with [check:all"));
    assert!(!contains_all_marker(b"[check:al"));
    assert!(!contains_all_marker(b"[check] not it"));
    assert!(!contains_all_marker(b""));
    assert!(!contains_all_marker(b"[CHECK:ALL *.rs]"));
}

fn ann(kind: CheckKind, line: usize) -> Annotation {
    Annotation {
        file_path: "f.rs".to_string(),
        line,
        kind,
        description: String::new(),
    }
}

#[test]
fn keeps_only_all_checks() {
    let anns = vec![
        ann(CheckKind::Check, 1),
        ann(CheckKind::All { pattern: "*.rs".to_string() }, 2),
        ann(CheckKind::File, 3),
        ann(CheckKind::Tag { name: "T".to_string() }, 4),
        ann(CheckKind::All { pattern: "docs/**".to_string() }, 5),
    ];
    let kept = keep_all_kind(&anns);
    let lines: Vec<usize> = kept.iter().map(|a| a.line).collect();
    assert_eq!(lines, vec![2, 5]);
}

#[test]
fn all_checks_of_a_file() {
    let source = "// [check:all src/**] Keep the docs in sync\nfn main() {}\n// [check] local\nfn f() {}\n";
    let found = file_all_annotations("src/lib.rs", source);
    assert_eq!(found.len(), 1);
    assert_eq!(found[0].file_path, "src/lib.rs");
    assert_eq!(found[0].line, 1);
    assert_eq!(found[0].kind, CheckKind::All { pattern: "src/**".to_string() });
    assert_eq!(found[0].description, "Keep the docs in sync");
}

#[test]
fn extension_picks_the_comment_syntax() {
    let source = "# [check:all *.proto] Regenerate the bindings\n";
    assert_eq!(file_all_annotations("tools/gen.py", source).len(), 1);
    assert_eq!(file_all_annotations("tools/gen.rs", source).len(), 0);
    assert!(file_annotations("notes.unknownext", source).is_none());
    assert!(file_annotations("Makefile", source).is_none());
}

#[test]
fn unknown_variants_of_a_file() {
    let source = "// [check:bogus] what\n// [check] fine\nfn f() {}\n";
    let found = file_annotations("a/b.rs", source).unwrap();
    assert_eq!(found.unknown_variants, vec![(1, "bogus".to_string())]);
    assert_eq!(found.annotations.len(), 1);
    assert_eq!(found.annotations[0].line, 2);
    assert_eq!(found.annotations[0].kind, CheckKind::Check);
}
