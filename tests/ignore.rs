use prmpt::config::create_default_base_config;
use prmpt::ignore_rules::{
    default_patterns_for_lowered, get_default_ignore_patterns_for_ignore, rule_matches_path,
    vcs_ignore_patterns, IgnoreResolver,
};
use prmpt::Config;

fn config() -> Config {
    create_default_base_config()
}

#[test]
fn directory_rule_is_anchored() {
    assert!(rule_matches_path("build/", "build/out.o"));
    assert!(!rule_matches_path("build/", "src/build/x.c"));
    assert!(rule_matches_path("build/", "build"));
}

#[test]
fn bare_rule_matches_any_segment() {
    assert!(rule_matches_path("target", "target"));
    assert!(rule_matches_path("target", "a/target/b"));
    assert!(!rule_matches_path("target", "targets"));
    assert!(rule_matches_path("*.pyc", "pkg/mod.pyc"));
    assert!(!rule_matches_path("*.pyc", "pkg/mod.py"));
}

#[test]
fn split_rule_matches_direct_children_only() {
    assert!(rule_matches_path("src/*.rs", "src/main.rs"));
    assert!(!rule_matches_path("src/*.rs", "src/bin/main.rs"));
    assert!(!rule_matches_path("src/*.rs", "lib/main.rs"));
}

#[test]
fn slash_rule_without_wildcard_matches_whole_path() {
    assert!(rule_matches_path("docs/a.md", "docs/a.md"));
    assert!(!rule_matches_path("docs/a.md", "x/docs/a.md"));
}

#[test]
fn output_file_is_ignored() {
    let mut c = config();
    c.output = Some("prompt.txt".to_string());
    let (r, dropped) = IgnoreResolver::for_config(&c, None);
    assert!(dropped.is_empty());
    assert!(r.is_ignored("prompt.txt"));
    assert!(r.is_ignored(".git/config"));
    assert!(r.is_ignored("prmpt.yaml"));
    assert!(r.is_ignored(".gitignore"));
    assert!(!r.is_ignored("src/main.rs"));
}

#[test]
fn output_file_with_glob_characters_is_ignored() {
    let mut c = config();
    c.output = Some("out[.txt".to_string());
    let (r, _) = IgnoreResolver::for_config(&c, None);
    assert!(r.is_ignored("out[.txt"));
}

#[test]
fn malformed_pattern_is_dropped() {
    let mut c = config();
    c.ignore = Some(vec!["a[".to_string(), "*.log".to_string()]);
    let (r, dropped) = IgnoreResolver::for_config(&c, None);
    assert_eq!(dropped, vec!["a[".to_string()]);
    assert!(r.is_ignored("logs/x.log"));
    assert!(!r.is_ignored("a["));
}

#[test]
fn language_defaults_are_added() {
    let mut c = config();
    c.language = Some("Rust".to_string());
    let (r, _) = IgnoreResolver::for_config(&c, None);
    assert!(r.is_ignored("target/debug/x"));
    assert!(r.is_ignored("Cargo.lock"));
    c.language = Some("cobol".to_string());
    let (r, _) = IgnoreResolver::for_config(&c, None);
    assert!(!r.is_ignored("target/debug/x"));
}

#[test]
fn vcs_ignore_respected_or_not() {
    let mut c = config();
    let text = "# comment\n\n  *.tmp  \nsecret/\n";
    let (r, _) = IgnoreResolver::for_config(&c, Some(text));
    assert!(r.is_ignored("a/b.tmp"));
    assert!(r.is_ignored("secret/key"));
    c.use_gitignore = Some(false);
    let (r, _) = IgnoreResolver::for_config(&c, Some(text));
    assert!(!r.is_ignored("a/b.tmp"));
}

#[test]
fn vcs_patterns_skip_blank_and_comments() {
    assert_eq!(
        vcs_ignore_patterns("# c\n\n  *.tmp  \nsecret/\r\n"),
        vec!["*.tmp".to_string(), "secret/".to_string()]
    );
}

#[test]
fn default_patterns_by_language() {
    assert_eq!(
        get_default_ignore_patterns_for_ignore("RUST"),
        vec!["target".to_string(), "Cargo.lock".to_string()]
    );
    let py = get_default_ignore_patterns_for_ignore("Python");
    assert_eq!(py.len(), 36);
    assert_eq!(py[0], "__pycache__/");
    assert_eq!(get_default_ignore_patterns_for_ignore("javascript").len(), 7);
    assert!(get_default_ignore_patterns_for_ignore("go").is_empty());
    assert!(default_patterns_for_lowered("RUST").is_empty());
}
