use prmpt::parser::{
    extract_path, extract_path_from_fence, parse_blocks, parse_blocks_with, InjectionParser,
    ParserState,
};

fn pairs(doc: &str) -> Vec<(String, String)> {
    parse_blocks(doc).into_iter().map(|b| (b.target_path, b.content)).collect()
}

#[test]
fn extract_path_heading() {
    assert_eq!(extract_path("### `src/main.rs`"), "src/main.rs");
    assert_eq!(extract_path("  ### `a/b.txt`  "), "a/b.txt");
}

#[test]
fn extract_path_bold() {
    assert_eq!(extract_path("**`src/lib.rs`**"), "src/lib.rs");
}

#[test]
fn extract_path_backticks() {
    assert_eq!(extract_path("`docs/x.md`"), "docs/x.md");
}

#[test]
fn extract_path_plain_line() {
    assert_eq!(extract_path("  src/plain.rs \t"), "src/plain.rs");
}

#[test]
fn extract_path_degenerate_markers() {
    assert_eq!(extract_path("### `"), "");
    assert_eq!(extract_path("**`**"), "");
    assert_eq!(extract_path("`"), "");
}

#[test]
fn fence_path_single_token() {
    assert_eq!(extract_path_from_fence("```src/lib.rs", "```"), Some("src/lib.rs"));
    assert_eq!(extract_path_from_fence("```rust", "```"), None);
    assert_eq!(extract_path_from_fence("```", "```"), None);
    assert_eq!(extract_path_from_fence("```Makefile", "```"), None);
}

#[test]
fn fence_path_two_tokens() {
    assert_eq!(extract_path_from_fence("```rust src/lib.rs", "```"), Some("src/lib.rs"));
    assert_eq!(extract_path_from_fence("  ```python  app main  ", "```"), Some("main"));
}

#[test]
fn fence_path_not_a_fence() {
    assert_eq!(extract_path_from_fence("src/lib.rs", "```"), None);
}

#[test]
fn path_line_conventions() {
    let p = InjectionParser::new();
    assert!(p.is_path_line("### `src/a.rs`"));
    assert!(p.is_path_line("**`src/a.rs`**"));
    assert!(p.is_path_line("`src/a.rs`"));
    assert!(!p.is_path_line("`a`"));
    assert!(p.is_path_line("`é`"));
    assert!(!p.is_path_line("plain text"));
}

#[test]
fn truncated_block_is_kept() {
    assert_eq!(
        pairs("```src/a.rs\nfn x() {}\n\n"),
        vec![("src/a.rs".to_string(), "fn x() {}".to_string())]
    );
}

#[test]
fn empty_block_is_dropped() {
    assert!(pairs("src/a.rs\n```\n   \n```\n").is_empty());
}

#[test]
fn block_without_path_is_dropped() {
    assert!(pairs("```\nsome text\n```\n").is_empty());
}

#[test]
fn empty_quoted_path_clears_pending() {
    assert!(pairs("src/a.rs\n` `  \n```\nx\n```\n").is_empty());
}

#[test]
fn comment_lines_are_not_paths() {
    assert!(pairs("# heading\n```\nx\n```\n").is_empty());
}

#[test]
fn trailing_whitespace_is_trimmed() {
    assert_eq!(
        pairs("`a/b.txt`\n```\n  line one\nline two  \n\n\n```\n"),
        vec![("a/b.txt".to_string(), "  line one\nline two".to_string())]
    );
}

#[test]
fn several_blocks_in_order() {
    let doc = "root\n├── a.txt\n\n```a.txt\nA\n```\n\n```d/b.txt\nB\n```\n\n";
    assert_eq!(
        pairs(doc),
        vec![
            ("a.txt".to_string(), "A".to_string()),
            ("d/b.txt".to_string(), "B".to_string())
        ]
    );
}

#[test]
fn crlf_lines() {
    assert_eq!(
        pairs("x/y.txt\r\n```\r\nhello\r\n```\r\n"),
        vec![("x/y.txt".to_string(), "hello".to_string())]
    );
}

#[test]
fn custom_delimiter() {
    let got: Vec<(String, String)> = parse_blocks_with("~~~ a.txt\nhi\n~~~\n", "~~~")
        .into_iter()
        .map(|b| (b.target_path, b.content))
        .collect();
    assert_eq!(got, vec![("a.txt".to_string(), "hi".to_string())]);
}

#[test]
fn parser_starts_expecting_a_path() {
    let p = InjectionParser::new();
    assert_eq!(p.state, ParserState::ExpectingPath);
    assert_eq!(p.delimiter, "```");
    assert!(p.blocks.is_empty());
}

#[test]
fn finalize_keeps_nonblank_block() {
    let mut p = InjectionParser::new();
    p.current_target_path = Some("a.rs".to_string());
    p.current_code_block = "x  \n\n".to_string();
    p.state = ParserState::InCodeBlock;
    p.finalize_current_block();
    assert_eq!(p.blocks.len(), 1);
    assert_eq!(p.blocks[0].content, "x");
    assert_eq!(p.current_target_path, None);
    assert_eq!(p.current_code_block, "");
    assert_eq!(p.state, ParserState::InCodeBlock);
}
