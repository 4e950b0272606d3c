use marginalia::annotations::CheckKind;
use marginalia::watchfile::parse_watchfile;

#[test]
fn parse_single_rule() {
    let content = "\
when src/**/*.rs changes:
  Make sure the README examples still compile.
";
    let anns = parse_watchfile(content, ".marginalia");
    assert_eq!(anns.len(), 1);
    assert_eq!(
        anns[0].kind,
        CheckKind::All {
            pattern: "src/**/*.rs".to_string()
        }
    );
    assert_eq!(
        anns[0].description,
        "Make sure the README examples still compile."
    );
    assert_eq!(anns[0].line, 1);
}

#[test]
fn parse_multiple_rules() {
    let content = "\
# This is a comment

when src/**/*.rs changes:
  Update the README examples.

when *.proto changes:
  Regenerate protobuf bindings.
  Check that the migration guide is updated.
";
    let anns = parse_watchfile(content, ".marginalia");
    assert_eq!(anns.len(), 2);
    assert_eq!(
        anns[0].kind,
        CheckKind::All {
            pattern: "src/**/*.rs".to_string()
        }
    );
    assert_eq!(anns[0].description, "Update the README examples.");
    assert_eq!(
        anns[1].kind,
        CheckKind::All {
            pattern: "*.proto".to_string()
        }
    );
    assert_eq!(
        anns[1].description,
        "Regenerate protobuf bindings.\nCheck that the migration guide is updated."
    );
}

#[test]
fn parse_empty_file() {
    let anns = parse_watchfile("", ".marginalia");
    assert_eq!(anns.len(), 0);
}

#[test]
fn parse_comments_only() {
    let content = "\
# Just comments
# Nothing to see here
";
    let anns = parse_watchfile(content, ".marginalia");
    assert_eq!(anns.len(), 0);
}

#[test]
fn rule_without_description() {
    let content = "when docs/** changes:\n";
    let anns = parse_watchfile(content, ".marginalia");
    assert_eq!(anns.len(), 1);
    assert_eq!(anns[0].description, "");
}

#[test]
fn rule_lines_and_unrecognized_lines() {
    let content = "garbage line\n\nwhen  a b   changes:\n  one\n#c\n  two\nwhen x changes:\nwhen y changes:\n  z\n";
    let anns = parse_watchfile(content, "rules");
    assert_eq!(anns.len(), 3);
    assert_eq!(anns[0].line, 3);
    assert_eq!(
        anns[0].kind,
        CheckKind::All {
            pattern: "a b".to_string()
        }
    );
    assert_eq!(anns[0].description, "one");
    assert_eq!(anns[1].line, 7);
    assert_eq!(anns[1].description, "");
    assert_eq!(anns[2].line, 8);
    assert_eq!(anns[2].description, "z");
    assert_eq!(anns[2].file_path, "rules");
}

#[test]
fn when_with_only_spaces_takes_one_space() {
    let anns = parse_watchfile("when   changes:\n", ".marginalia");
    assert_eq!(anns.len(), 1);
    assert_eq!(
        anns[0].kind,
        CheckKind::All {
            pattern: " ".to_string()
        }
    );
    assert_eq!(parse_watchfile("when  changes:\n", ".marginalia").len(), 0);
    assert_eq!(parse_watchfile("when x changes: now\n", ".marginalia").len(), 0);
}

#[test]
fn unrecognized_lines_are_reported() {
    let content = "# comment\nstray line\nwhen *.rs changes:\n  description\n  more\n\nwhen docs/** change\n";
    let lines = marginalia::watchfile::unrecognized_lines(content);
    assert_eq!(
        lines,
        vec![(2, "stray line".to_string()), (7, "when docs/** change".to_string())]
    );
}
