use marginalia::comments::{extract_comments, CommentTokens};

fn c_tokens() -> CommentTokens {
    CommentTokens {
        line: vec!["//".to_string()],
        block: vec![("/*".to_string(), "*/".to_string())],
    }
}

fn py_tokens() -> CommentTokens {
    CommentTokens {
        line: vec!["#".to_string()],
        block: vec![],
    }
}

fn hs_tokens() -> CommentTokens {
    CommentTokens {
        line: vec!["--".to_string()],
        block: vec![("{-".to_string(), "-}".to_string())],
    }
}

#[test]
fn line_comments_c_style() {
    let source = "int x = 1;\n// [check] verify bounds\nint y = 2;\n";
    let comments = extract_comments(source, &c_tokens());
    assert_eq!(comments.len(), 1);
    assert_eq!(comments[0].line, 2);
    assert_eq!(comments[0].text, "[check] verify bounds");
}

#[test]
fn line_comments_python() {
    let source = "x = 1\n# [check] ensure rate limit\ny = 2\n";
    let comments = extract_comments(source, &py_tokens());
    assert_eq!(comments.len(), 1);
    assert_eq!(comments[0].line, 2);
    assert_eq!(comments[0].text, "[check] ensure rate limit");
}

#[test]
fn block_comment_single_line() {
    let source = "/* [check] verify this */ int x = 1;\n";
    let comments = extract_comments(source, &c_tokens());
    assert_eq!(comments.len(), 1);
    assert_eq!(comments[0].text, "[check] verify this");
}

#[test]
fn block_comment_multi_line() {
    let source = "/*\n * [check] verify\n * this thing\n */\nint x = 1;\n";
    let comments = extract_comments(source, &c_tokens());
    assert_eq!(comments.len(), 1);
    assert_eq!(comments[0].text, "[check] verify this thing");
}

#[test]
fn haskell_comments() {
    let source = "-- [check] verify purity\nfoo :: Int -> Int\n{- [check:file] check exports -}\n";
    let comments = extract_comments(source, &hs_tokens());
    assert_eq!(comments.len(), 2);
    assert_eq!(comments[0].text, "[check] verify purity");
    assert_eq!(comments[1].text, "[check:file] check exports");
}

#[test]
fn inline_comment() {
    let source = "let x = dangerous_call(); // [check] ensure error handling\n";
    let comments = extract_comments(source, &c_tokens());
    assert_eq!(comments.len(), 1);
    assert_eq!(comments[0].text, "[check] ensure error handling");
}

#[test]
fn unterminated_block_comment_keeps_text() {
    let source = "/* [check] open\n * still going\n";
    let comments = extract_comments(source, &c_tokens());
    assert_eq!(comments.len(), 1);
    assert_eq!(comments[0].line, 1);
    assert_eq!(comments[0].text, "[check] open still going");
}

#[test]
fn crlf_lines_and_unicode_whitespace() {
    let source = "x\r\n\u{3000}// [check] wide space\u{a0}\r\ny\r\n";
    let comments = extract_comments(source, &c_tokens());
    assert_eq!(comments.len(), 1);
    assert_eq!(comments[0].line, 2);
    assert_eq!(comments[0].text, "[check] wide space");
}

#[test]
fn block_comment_after_code_on_later_line() {
    let source = "a\nb /* [check] x */\n// [check] y\n";
    let comments = extract_comments(source, &c_tokens());
    assert_eq!(comments.len(), 2);
    assert_eq!(comments[0].line, 2);
    assert_eq!(comments[0].text, "[check] x");
    assert_eq!(comments[1].line, 3);
    assert_eq!(comments[1].text, "[check] y");
}

#[test]
fn empty_source_has_no_comments() {
    assert!(extract_comments("", &c_tokens()).is_empty());
}

#[test]
fn block_opener_inside_line_comment() {
    let source = "// [check:all src/**/*.rs] Update the docs\nfn foo() {}\n";
    let comments = extract_comments(source, &c_tokens());
    assert_eq!(comments.len(), 1);
    assert_eq!(comments[0].line, 1);
    assert_eq!(comments[0].text, "[check:all src/**/*.rs] Update the docs");
}

#[test]
fn line_prefix_inside_block_comment() {
    let source = "int x; /* see http://example.com */\n";
    let comments = extract_comments(source, &c_tokens());
    assert_eq!(comments.len(), 1);
    assert_eq!(comments[0].text, "see http://example.com");
}
