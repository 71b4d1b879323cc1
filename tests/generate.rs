use prmpt::config::{config_layout, is_config_field, ConfigLayout};
use prmpt::document::render_block;
use prmpt::generate::{
    extension, parent_key_of, relative_display, render_listing, render_mode, EntryKind, FileContent,
    FileEntry, RenderMode, RepoSnapshot, TreeEntry,
};
use prmpt::ignore_rules::IgnoreResolver;
use prmpt::parser::parse_blocks;
use prmpt::{create_default_base_config, Config, GenerateOperation, Generator, DEFAULT_CONFIG_KEY};

fn entry(name: &str, rel: &str, kind: EntryKind, children: Vec<usize>) -> TreeEntry {
    TreeEntry { name: name.to_string(), rel_path: rel.to_string(), kind, children }
}

fn file(path: &str, content: FileContent) -> FileEntry {
    FileEntry { path: path.to_string(), content }
}

fn text(s: &str) -> FileContent {
    FileContent::Text(s.to_string())
}

fn base() -> Config {
    let mut c = create_default_base_config();
    c.output = Some("prompt.out".to_string());
    c
}

fn snapshot() -> RepoSnapshot {
    RepoSnapshot {
        root: "/work/proj".to_string(),
        root_name: "proj".to_string(),
        tree: vec![
            entry("proj", "", EntryKind::Dir, vec![1, 2, 4]),
            entry("a.txt", "a.txt", EntryKind::File, vec![]),
            entry("src", "src", EntryKind::Dir, vec![3]),
            entry("main.rs", "src/main.rs", EntryKind::File, vec![]),
            entry("prompt.out", "prompt.out", EntryKind::File, vec![]),
        ],
        files: vec![
            file("/work/proj/src/main.rs", text("fn main() {}\n// end")),
            file("/work/proj/prompt.out", text("old output")),
            file("/work/proj/src/bad.bin", FileContent::Unreadable),
            file("/work/proj/a.txt", text("alpha")),
        ],
        vcs_ignore: None,
    }
}

#[test]
fn render_block_format() {
    assert_eq!(render_block("```", "a/b.rs", "x"), "```a/b.rs\nx\n```\n\n");
}

#[test]
fn generated_document() {
    let (doc, errors) = Generator.run(&base(), &snapshot());
    assert_eq!(
        doc,
        "proj\n├── a.txt\n└── src\n    └── main.rs\n\n```a.txt\nalpha\n```\n\n```src/main.rs\nfn main() {}\n// end\n```\n\n"
    );
    assert_eq!(
        errors,
        vec!["Directory '/work/proj/src' had 1 file(s) that could not be processed\n".to_string()]
    );
}

#[test]
fn generated_document_round_trips() {
    let (doc, _) = Generator.run(&base(), &snapshot());
    let back: Vec<(String, String)> =
        parse_blocks(&doc).into_iter().map(|b| (b.target_path, b.content)).collect();
    assert_eq!(
        back,
        vec![
            ("a.txt".to_string(), "alpha".to_string()),
            ("src/main.rs".to_string(), "fn main() {}\n// end".to_string())
        ]
    );
}

#[test]
fn preamble_comes_first() {
    let mut c = base();
    c.prompts = Some(vec!["Summarise this.".to_string(), "Be brief.".to_string()]);
    let mut snap = snapshot();
    snap.files.clear();
    snap.tree.truncate(1);
    snap.tree[0].children.clear();
    let (doc, errors) = Generator.run(&c, &snap);
    assert_eq!(doc, "Summarise this.\nBe brief.\n\nproj\n\n");
    assert!(errors.is_empty());
}

#[test]
fn failures_are_counted_per_directory() {
    let mut snap = snapshot();
    snap.files = vec![
        file("/work/proj/d/x", FileContent::Unreadable),
        file("/work/proj/e/y", FileContent::Unreadable),
        file("/work/proj/d/z", FileContent::Unreadable),
    ];
    let (_, errors) = Generator.run(&base(), &snap);
    assert_eq!(
        errors,
        vec![
            "Directory '/work/proj/d' had 2 file(s) that could not be processed\n".to_string(),
            "Directory '/work/proj/e' had 1 file(s) that could not be processed\n".to_string()
        ]
    );
}

#[test]
fn notebook_and_skipped_files() {
    let mut snap = snapshot();
    snap.files = vec![
        file("/work/proj/n.ipynb", FileContent::Notebook(None)),
        file("/work/proj/s.txt", FileContent::Skipped),
    ];
    let (doc, errors) = Generator.run(&base(), &snap);
    assert!(!doc.contains("```"));
    assert!(errors.is_empty());
}

#[test]
fn listing_respects_rules() {
    let mut c = base();
    c.ignore = Some(vec!["src/".to_string()]);
    let (res, _) = IgnoreResolver::for_config(&c, None);
    assert_eq!(render_listing(&snapshot().tree, &res), "└── a.txt\n");
}

#[test]
fn extensions() {
    assert_eq!(extension("/a/b/c.py"), Some("py".to_string()));
    assert_eq!(extension("/a/b.d/c"), None);
    assert_eq!(extension("/a/.bashrc"), None);
    assert_eq!(extension("x.tar.gz"), Some("gz".to_string()));
    assert_eq!(extension("/a/b."), Some("".to_string()));
}

#[test]
fn display_paths() {
    assert_eq!(relative_display("/work/proj", "/work/proj/src/a.rs"), "src/a.rs");
    assert_eq!(relative_display("/work/proj", "/elsewhere/a.rs"), "/elsewhere/a.rs");
    assert_eq!(relative_display("/", "/etc/x"), "etc/x");
}

#[test]
fn parent_keys() {
    assert_eq!(parent_key_of("/work/proj/a.rs"), "/work/proj");
    assert_eq!(parent_key_of("/a.rs"), "/");
    assert_eq!(parent_key_of("a.rs"), "");
}

#[test]
fn render_modes() {
    let mut c = base();
    assert_eq!(render_mode(&c, "a.py", "/r/a.py"), RenderMode::Full);
    assert_eq!(render_mode(&c, "n.ipynb", "/r/n.ipynb"), RenderMode::Notebook);
    c.docs_comments_only = Some(true);
    c.language = Some("Python".to_string());
    assert_eq!(render_mode(&c, "a.py", "/r/a.py"), RenderMode::Signatures);
    assert_eq!(render_mode(&c, "n.ipynb", "/r/n.ipynb"), RenderMode::Skip);
    c.docs_ignore = Some(vec!["tests/*".to_string()]);
    assert_eq!(render_mode(&c, "tests/t.py", "/r/tests/t.py"), RenderMode::Full);
    c.language = Some("rust".to_string());
    assert_eq!(render_mode(&c, "a.py", "/r/a.py"), RenderMode::Full);
}

#[test]
fn default_config_values() {
    let c = create_default_base_config();
    assert_eq!(c.path.as_deref(), Some("."));
    assert_eq!(c.output.as_deref(), Some("prmpt.out"));
    assert_eq!(c.delimiter.as_deref(), Some("```"));
    assert_eq!(c.use_gitignore, Some(true));
    assert!(c.ignore.is_none() && c.language.is_none() && c.prompts.is_none());
    assert_eq!(DEFAULT_CONFIG_KEY, "base");
}

#[test]
fn config_file_layouts() {
    let keys = |ks: &[&str]| ks.iter().map(|k| k.to_string()).collect::<Vec<String>>();
    assert_eq!(config_layout(&keys(&["path", "ignore"])), ConfigLayout::Single);
    assert_eq!(config_layout(&keys(&["base", "docs"])), ConfigLayout::Named);
    assert_eq!(config_layout(&keys(&["path", "docs"])), ConfigLayout::Mixed);
    assert!(is_config_field("display_outputs"));
    assert!(!is_config_field("paths"));
}

#[test]
fn paths_are_ordered_by_character() {
    use_sorted_order();
}

fn use_sorted_order() {
    let keys: Vec<String> = ["src/b.rs", "a.txt", "src/a.rs", "B", "a.txt"]
        .iter()
        .map(|s| s.to_string())
        .collect();
    let order = prmpt::order::sorted_order(&keys);
    let sorted: Vec<&str> = order.iter().map(|&i| keys[i].as_str()).collect();
    assert_eq!(sorted, vec!["B", "a.txt", "a.txt", "src/a.rs", "src/b.rs"]);
    assert_eq!(order[1], 1);
    assert_eq!(order[2], 4);
    assert!(prmpt::order::text_less("a", "ab"));
    assert!(!prmpt::order::text_less("b", "ab"));
    assert!(!prmpt::order::text_less("x", "x"));
}

#[test]
fn paths_are_ordered_by_components() {
    let keys: Vec<String> = ["/r/a.rs", "/r/a/b.rs", "/r/a-b", "/r/a", "/r/src/parser.rs", "/r/src/parser/mod.rs"]
        .iter()
        .map(|s| s.to_string())
        .collect();
    let order = prmpt::order::sorted_order(&keys);
    let sorted: Vec<&str> = order.iter().map(|&i| keys[i].as_str()).collect();
    assert_eq!(
        sorted,
        vec!["/r/a", "/r/a/b.rs", "/r/a-b", "/r/a.rs", "/r/src/parser/mod.rs", "/r/src/parser.rs"]
    );
    assert!(prmpt::order::text_less("a/b.rs", "a.rs"));
    assert!(!prmpt::order::text_less("a.rs", "a/b.rs"));
}

#[test]
fn generated_blocks_follow_component_order() {
    let mut snap = snapshot();
    snap.files = vec![
        file("/work/proj/src/parser.rs", text("P")),
        file("/work/proj/src/parser/mod.rs", text("M")),
    ];
    let (doc, _) = Generator.run(&base(), &snap);
    let m = doc.find("```src/parser/mod.rs").unwrap();
    let p = doc.find("```src/parser.rs").unwrap();
    assert!(m < p);
}
