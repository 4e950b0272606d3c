use marginalia::annotations::{extract_annotations, CheckKind};
use marginalia::comments::extract_comments;
use marginalia::languages::comment_tokens;

#[test]
fn markdown_html_comments() {
    let source = "<!-- [check:all src/**/*.rs] Update examples -->\nSome text\n";
    let tokens = comment_tokens("md").unwrap();
    let comments = extract_comments(source, &tokens);
    assert_eq!(comments.len(), 1);
    let anns = extract_annotations(&comments, "README.md");
    assert_eq!(anns.len(), 1);
    assert_eq!(
        anns[0].kind,
        CheckKind::All {
            pattern: "src/**/*.rs".to_string()
        }
    );
}

#[test]
fn comment_tokens_by_extension() {
    let rs = comment_tokens("rs").unwrap();
    assert_eq!(rs.line, vec!["//".to_string()]);
    assert_eq!(rs.block, vec![("/*".to_string(), "*/".to_string())]);
    let py = comment_tokens("py").unwrap();
    assert_eq!(py.line, vec!["#".to_string()]);
    assert!(py.block.is_empty());
    let hs = comment_tokens("hs").unwrap();
    assert_eq!(hs.line, vec!["--".to_string()]);
    assert_eq!(hs.block, vec![("{-".to_string(), "-}".to_string())]);
    let md = comment_tokens("markdown").unwrap();
    assert!(md.line.is_empty());
    assert_eq!(md.block, vec![("<!--".to_string(), "-->".to_string())]);
    let json = comment_tokens("json").unwrap();
    assert!(json.line.is_empty() && json.block.is_empty());
    assert!(comment_tokens("xyz").is_none());
    assert!(comment_tokens("RS").is_none());
    assert!(comment_tokens("").is_none());
}

#[test]
fn css_readme_example() {
    let source = "/* [check] Open the sign-up page on your phone and make sure\n\
/* the button still looks nice on mobile */\n\
.signup-button {\n    padding: 12px 24px;\n}\n";
    let tokens = comment_tokens("css").unwrap();
    let comments = extract_comments(source, &tokens);
    let anns = extract_annotations(&comments, "style.css");
    assert_eq!(anns.len(), 1);
    assert_eq!(anns[0].kind, CheckKind::Check);
    assert_eq!(anns[0].line, 1);
}

#[test]
fn sql_file_check() {
    let source = "-- [check:file] Run this migration against a copy of prod data before merging.\nALTER TABLE users ADD COLUMN x;\n";
    let tokens = comment_tokens("sql").unwrap();
    let comments = extract_comments(source, &tokens);
    let anns = extract_annotations(&comments, "db/001.sql");
    assert_eq!(anns.len(), 1);
    assert_eq!(anns[0].kind, CheckKind::File);
    assert_eq!(
        anns[0].description,
        "Run this migration against a copy of prod data before merging."
    );
}

#[test]
fn python_readme_example() {
    let source = "# [check] Read the generated email aloud.\n# Does it still sound welcoming?\ndef compose_welcome_email(user):\n    ...\n";
    let tokens = comment_tokens("py").unwrap();
    let anns = extract_annotations(&extract_comments(source, &tokens), "mail.py");
    assert_eq!(anns.len(), 1);
    assert_eq!(anns[0].kind, CheckKind::Check);
    assert_eq!(
        anns[0].description,
        "Read the generated email aloud.\nDoes it still sound welcoming?"
    );
}

#[test]
fn all_check_readme_example() {
    let source = "# [check:all email-templates/**] Preview the email templates after changing them.\n# They render differently in Outlook.\n";
    let tokens = comment_tokens("py").unwrap();
    let anns = extract_annotations(&extract_comments(source, &tokens), "mail.py");
    assert_eq!(anns.len(), 1);
    assert_eq!(
        anns[0].kind,
        CheckKind::All {
            pattern: "email-templates/**".to_string()
        }
    );
    assert_eq!(
        anns[0].description,
        "Preview the email templates after changing them.\nThey render differently in Outlook."
    );
}

#[test]
fn watchfile_readme_example() {
    let content = "# Lines starting with # are comments.\n\nwhen static/logo.png changes:\n  Open the landing page and check it looks right.\n\nwhen db/migrations/** changes:\n  Run the migration against a copy of prod first.\n";
    let anns = marginalia::watchfile::parse_watchfile(content, ".marginalia");
    assert_eq!(anns.len(), 2);
    assert_eq!(anns[0].line, 3);
    assert_eq!(
        anns[0].kind,
        CheckKind::All {
            pattern: "static/logo.png".to_string()
        }
    );
    assert_eq!(anns[0].description, "Open the landing page and check it looks right.");
    assert_eq!(anns[1].line, 6);
    assert_eq!(
        anns[1].kind,
        CheckKind::All {
            pattern: "db/migrations/**".to_string()
        }
    );
}
