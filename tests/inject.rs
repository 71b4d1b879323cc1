use prmpt::parser::CodeBlock;
use prmpt::writer::{within_root_exec, WriteAction, WriteEvent, WriteOutcome, WritePhase};
use prmpt::{InjectOperation, Injector};

/// Runs the writer of the single block of `document` under `/repo`, with every
/// action succeeding and directories resolving to themselves; returns the content
/// written and the final path.
fn inject_one(document: &str) -> (String, String) {
    let injector = Injector;
    let blocks = injector.code_blocks(document);
    assert_eq!(blocks.len(), 1);
    let (mut writer, mut action) = injector.writer_for("/repo", &blocks[0]);
    let mut written = String::new();
    loop {
        let event = match &action {
            WriteAction::CreateDir(_) => WriteEvent::Done,
            WriteAction::Canonicalize(d) => WriteEvent::Resolved(d.clone()),
            WriteAction::WriteTemp(_, content) => {
                written = content.clone();
                WriteEvent::Done
            }
            WriteAction::Rename(_, _) => WriteEvent::Done,
            WriteAction::RemoveTemp(_) => WriteEvent::Done,
            WriteAction::Finish(WriteOutcome::Written(path)) => return (written, path.clone()),
            WriteAction::Finish(other) => panic!("block not written: {:?}", other),
        };
        action = writer.advance(event);
    }
}

#[test]
fn inject_plain_path() {
    let (contents, path) = inject_one("src/lib.rs\n```rust\nfn new_fn() {}\n```\n");
    assert!(contents.contains("new_fn"));
    assert_eq!(path, "/repo/src/lib.rs");
}

#[test]
fn inject_backticked_path() {
    let (contents, path) = inject_one("### `src/lib.rs`\n```rust\nfn added() {}\n```\n");
    assert!(contents.contains("added"));
    assert_eq!(path, "/repo/src/lib.rs");
}

#[test]
fn inject_fence_with_path() {
    let (contents, path) = inject_one("```src/lib.rs\nfn replaced() {}\n```\n");
    assert!(contents.contains("replaced"));
    assert_eq!(path, "/repo/src/lib.rs");
}

#[test]
fn inject_fence_with_language_and_path() {
    let (contents, path) = inject_one("```rust src/lib.rs\nfn update() {}\n```\n");
    assert!(contents.contains("update"));
    assert_eq!(path, "/repo/src/lib.rs");
}

fn expect_canonicalize(action: WriteAction, dir: &str) {
    match action {
        WriteAction::Canonicalize(d) => assert_eq!(d, dir),
        other => panic!("unexpected {:?}", other),
    }
}

fn expect_create(action: WriteAction, dir: &str) {
    match action {
        WriteAction::CreateDir(d) => assert_eq!(d, dir),
        other => panic!("unexpected {:?}", other),
    }
}

fn block(path: &str) -> CodeBlock {
    CodeBlock { target_path: path.to_string(), content: "x".to_string() }
}

#[test]
fn heading_announcement_scenario() {
    let doc = "### `src/a.txt`\n```\nhello\n```\n";
    let injector = Injector;
    let blocks = injector.code_blocks(doc);
    assert_eq!(blocks.len(), 1);
    assert_eq!(blocks[0].target_path, "src/a.txt");
    assert_eq!(blocks[0].content, "hello");
    let (mut writer, action) = injector.writer_for("/repo", &blocks[0]);
    expect_canonicalize(action, "/repo");
    expect_create(writer.advance(WriteEvent::Resolved("/repo".to_string())), "/repo/src");
    expect_canonicalize(writer.advance(WriteEvent::Done), "/repo/src");
    match writer.advance(WriteEvent::Resolved("/repo/src".to_string())) {
        WriteAction::WriteTemp(temp, content) => {
            assert!(temp.starts_with("/repo/src/.a.txt.tmp."));
            assert_eq!(temp.len(), "/repo/src/.a.txt.tmp.".len() + 8);
            assert_eq!(content, "hello");
        }
        other => panic!("unexpected {:?}", other),
    }
    match writer.advance(WriteEvent::Done) {
        WriteAction::Rename(_, to) => assert_eq!(to, "/repo/src/a.txt"),
        other => panic!("unexpected {:?}", other),
    }
    match writer.advance(WriteEvent::Done) {
        WriteAction::Finish(WriteOutcome::Written(p)) => assert_eq!(p, "/repo/src/a.txt"),
        other => panic!("unexpected {:?}", other),
    }
}

#[test]
fn escaping_path_is_refused() {
    let (writer, action) = Injector.writer_for("/repo", &block("../../etc/passwd"));
    match action {
        WriteAction::Finish(WriteOutcome::Escapes(d)) => assert_eq!(d, "/repo/../../etc"),
        other => panic!("unexpected {:?}", other),
    }
    assert_eq!(writer.phase, WritePhase::Finished);
}

#[test]
fn climbing_inside_the_root_is_allowed() {
    let (writer, action) = Injector.writer_for("/repo", &block("a/../b/./c.txt"));
    expect_canonicalize(action, "/repo");
    assert_eq!(writer.segments, vec!["a".to_string(), "..".to_string(), "b".to_string()]);
    let (_, action) = Injector.writer_for("/repo", &block("a/../../b/c.txt"));
    assert!(matches!(action, WriteAction::Finish(WriteOutcome::Escapes(_))));
    let (mut writer, _) = Injector.writer_for("/repo", &block("/etc/passwd"));
    assert_eq!(writer.segments, vec!["etc".to_string()]);
    expect_create(writer.advance(WriteEvent::Resolved("/repo".to_string())), "/repo/etc");
}

#[test]
fn directory_reached_through_a_link_is_not_descended() {
    let (mut writer, _) = Injector.writer_for("/repo", &block("link/sub/a.txt"));
    expect_create(writer.advance(WriteEvent::Resolved("/repo".to_string())), "/repo/link");
    expect_canonicalize(writer.advance(WriteEvent::Done), "/repo/link");
    match writer.advance(WriteEvent::Resolved("/outside".to_string())) {
        WriteAction::Finish(WriteOutcome::Escapes(p)) => assert_eq!(p, "/outside"),
        other => panic!("unexpected {:?}", other),
    }
    assert_eq!(writer.phase, WritePhase::Finished);
}

#[test]
fn sibling_of_root_is_refused() {
    let (mut writer, _) = Injector.writer_for("/repo", &block("a.txt"));
    match writer.advance(WriteEvent::Resolved("/repo2".to_string())) {
        WriteAction::Finish(WriteOutcome::Escapes(_)) => {}
        other => panic!("unexpected {:?}", other),
    }
}

#[test]
fn writer_remembers_its_targets() {
    let (mut writer, _) = Injector.writer_for("/repo", &block("src/a.txt"));
    assert_eq!(writer.phase, WritePhase::Resolving);
    writer.advance(WriteEvent::Resolved("/repo".to_string()));
    assert_eq!(writer.phase, WritePhase::CreatingDir);
    assert_eq!(writer.next, 1);
    writer.advance(WriteEvent::Done);
    writer.advance(WriteEvent::Resolved("/repo/src".to_string()));
    assert_eq!(writer.phase, WritePhase::WritingTemp);
    assert_eq!(writer.final_path, "/repo/src/a.txt");
    assert!(writer.temp_path.starts_with("/repo/src/.a.txt.tmp."));
    writer.advance(WriteEvent::Done);
    assert_eq!(writer.phase, WritePhase::Renaming);
}

#[test]
fn path_without_file_name_finishes() {
    let (_, action) = Injector.writer_for("/repo", &block("src/.."));
    assert!(matches!(action, WriteAction::Finish(WriteOutcome::NoFileName)));
}

#[test]
fn failures_remove_the_temporary_file() {
    let (mut writer, action) = Injector.writer_for("/repo", &block("a.txt"));
    expect_canonicalize(action, "/repo");
    let temp = match writer.advance(WriteEvent::Resolved("/repo".to_string())) {
        WriteAction::WriteTemp(t, _) => t,
        other => panic!("unexpected {:?}", other),
    };
    match writer.advance(WriteEvent::Failed) {
        WriteAction::RemoveTemp(t) => assert_eq!(t, temp),
        other => panic!("unexpected {:?}", other),
    }
    assert!(matches!(writer.advance(WriteEvent::Done), WriteAction::Finish(WriteOutcome::WriteFailed)));
}

#[test]
fn rename_failure_is_reported() {
    let (mut writer, _) = Injector.writer_for("/repo", &block("a.txt"));
    writer.advance(WriteEvent::Resolved("/repo".to_string()));
    writer.advance(WriteEvent::Done);
    assert!(matches!(writer.advance(WriteEvent::Failed), WriteAction::RemoveTemp(_)));
    assert!(matches!(writer.advance(WriteEvent::Failed), WriteAction::Finish(WriteOutcome::RenameFailed)));
}

#[test]
fn directory_failure_is_reported() {
    let (mut writer, _) = Injector.writer_for("/repo", &block("d/a.txt"));
    expect_create(writer.advance(WriteEvent::Resolved("/repo".to_string())), "/repo/d");
    assert!(matches!(writer.advance(WriteEvent::Failed), WriteAction::Finish(WriteOutcome::DirectoryFailed)));
}

#[test]
fn temporary_suffix_is_alphanumeric() {
    let (writer, _) = Injector.writer_for("/repo", &block("a.txt"));
    assert_eq!(writer.suffix.len(), 8);
    assert!(writer.suffix.chars().all(|c| c.is_ascii_alphanumeric()));
}

#[test]
fn within_root_cases() {
    assert!(within_root_exec("/repo", "/repo"));
    assert!(within_root_exec("/repo", "/repo/src"));
    assert!(!within_root_exec("/repo", "/repo2"));
    assert!(!within_root_exec("/repo", "/"));
    assert!(within_root_exec("/", "/etc"));
}
