//! The tree serializer: from a snapshot of a repository (its listing and the files
//! as read) to the finished document and the summaries of files that failed.
use vstd::prelude::*;
use vstd::string::*;
use crate::config::{delimiter_of, Config};
use crate::document::{
    blocks_text, fence_free_header, law_round_trip, plain_delimiter, render_block,
    round_trip_safe,
};
use crate::parser::parse_document;
use crate::signatures::{module_docstring, no_definitions};
use crate::text::lemma_trim_empty;
use crate::order::{insertion_order, is_permutation, sorted_order};
use crate::ignore_rules::{
    always_on_patterns, any_rule_matches, glob_match, glob_matches, lower_of, lowercase,
    patterns_of, patterns_of_kept, requested_patterns, IgnoreResolver,
};
use crate::config::output_name;
use crate::notebook::{decimal, decimal_string, notebook_text, render_notebook, JsonValue};
use crate::parser::is_blank;
use crate::signatures::{extract_python_signatures, signatures_of, SyntaxNode};
use crate::text::{chars_of, push_char, same_text, string_of_range, trim_bounds};
use crate::writer::{dir_prefix, last_sep, under};

verus! {

/// How a file is to be read and rendered.
#[derive(Debug, PartialEq, Eq, Structural, Clone, Copy)]
pub enum RenderMode {
    /// The file contributes nothing.
    Skip,
    /// Signatures and docstrings only, from the file's syntax tree.
    Signatures,
    /// A notebook transcript, from the file's JSON document.
    Notebook,
    /// The whole text.
    Full,
}

/// A file as the caller read it, in the form its mode asks for.
#[derive(Debug)]
pub enum FileContent {
    /// Nothing was read: the file contributes nothing.
    Skipped,
    /// The whole text.
    Text(String),
    /// The file could not be read or is not UTF-8.
    Unreadable,
    /// The syntax tree of a Python file, root first.
    Signatures(Vec<SyntaxNode>),
    /// A notebook document, or `None` when the file is not valid JSON.
    Notebook(Option<JsonValue>),
}

/// One file of the repository, with its absolute path.
#[derive(Debug)]
pub struct FileEntry {
    pub path: String,
    pub content: FileContent,
}

/// Kind of an entry of the listing.
#[derive(Debug, PartialEq, Eq, Structural, Clone, Copy)]
pub enum EntryKind {
    Dir,
    File,
    /// Neither a directory nor a file (a dangling link): it takes no line.
    Other,
}

/// One entry of the directory listing. The entries stand in one vector in
/// pre-order, the root first; `children` holds the indices of a directory's
/// entries, in name order.
#[derive(Debug, Clone)]
pub struct TreeEntry {
    pub name: String,
    /// The path relative to the root, which ignore rules are applied to.
    pub rel_path: String,
    pub kind: EntryKind,
    pub children: Vec<usize>,
}

/// What the walk of a repository found.
#[derive(Debug)]
pub struct RepoSnapshot {
    /// The canonical root.
    pub root: String,
    /// The display name of the root directory.
    pub root_name: String,
    /// The listing, root first.
    pub tree: Vec<TreeEntry>,
    /// The files to render, in any order: the run orders them by path.
    pub files: Vec<FileEntry>,
    /// The text of the root's VCS ignore file, when there is one.
    pub vcs_ignore: Option<String>,
}

// ---------------------------------------------------------------------------
// Listing

pub open spec fn entry_child(t: Seq<TreeEntry>, i: int, k: int) -> int {
    if 0 <= i < t.len() && 0 <= k < t[i].children@.len() && i < t[i].children@[k] < t.len() {
        t[i].children@[k] as int
    } else {
        -1
    }
}

pub open spec fn entry_count(t: Seq<TreeEntry>, i: int) -> int {
    if 0 <= i < t.len() {
        t[i].children@.len() as int
    } else {
        0
    }
}

/// The children of entry `i` among its first `k` that the rules leave in.
pub open spec fn shown_children(t: Seq<TreeEntry>, i: int, k: int, hidden: spec_fn(Seq<char>) -> bool) -> Seq<int>
    decreases k,
{
    if k <= 0 {
        seq![]
    } else {
        let c = entry_child(t, i, k - 1);
        let before = shown_children(t, i, k - 1, hidden);
        if c >= 0 && !hidden(t[c].rel_path@) {
            before.push(c)
        } else {
            before
        }
    }
}

/// `├` for an entry that has a sibling after it, `└` for the last one.
pub open spec fn branch(last: bool) -> Seq<char> {
    if last {
        seq!['└']
    } else {
        seq!['├']
    }
}

/// What the children of an entry add to the prefix of their own entries.
pub open spec fn stem(last: bool) -> Seq<char> {
    if last {
        seq![' ', ' ', ' ', ' ']
    } else {
        seq!['│', ' ', ' ', ' ']
    }
}

/// The listing lines of the shown children of `i` from the `k`-th on.
pub open spec fn listing_from(
    t: Seq<TreeEntry>,
    i: int,
    k: int,
    prefix: Seq<char>,
    hidden: spec_fn(Seq<char>) -> bool,
) -> Seq<char>
    decreases t.len() - i, entry_count(t, i) - k,
{
    let shown = shown_children(t, i, entry_count(t, i), hidden);
    if i < 0 || i >= t.len() || k < 0 || k >= shown.len() || shown.len() > entry_count(t, i) {
        seq![]
    } else {
        let c = shown[k];
        let last = k == shown.len() - 1;
        let line = prefix + branch(last) + seq!['─', '─', ' '] + t[c].name@ + seq!['\n'];
        let rest = listing_from(t, i, k + 1, prefix, hidden);
        if c <= i || c >= t.len() {
            rest
        } else if t[c].kind == EntryKind::Dir {
            line + listing_from(t, c, 0, prefix + stem(last), hidden) + rest
        } else if t[c].kind == EntryKind::File {
            line + rest
        } else {
            rest
        }
    }
}

// ---------------------------------------------------------------------------
// Paths

/// The path of `abs` relative to `root` when it lies beneath it; `abs` itself
/// otherwise.
pub open spec fn display_path(root: Seq<char>, abs: Seq<char>) -> Seq<char> {
    if under(root, abs) {
        abs.skip(dir_prefix(root).len() as int)
    } else {
        abs
    }
}

/// The directory part of a path, under which its failures are counted.
pub open spec fn parent_key(abs: Seq<char>) -> Seq<char> {
    let k = last_sep(abs);
    if k < 0 {
        seq![]
    } else if k == 0 {
        seq!['/']
    } else {
        abs.take(k)
    }
}

/// Index of the last `.` of `s`, or -1.
pub open spec fn last_dot(s: Seq<char>) -> int
    decreases s.len(),
{
    if s.len() == 0 {
        -1
    } else if s.last() == '.' {
        s.len() - 1
    } else {
        last_dot(s.drop_last())
    }
}

/// The extension of the file a path names: what follows the last `.` of its name,
/// unless that `.` starts the name.
pub open spec fn extension_of(path: Seq<char>) -> Option<Seq<char>> {
    let name = path.skip(last_sep(path) + 1);
    let k = last_dot(name);
    if k <= 0 {
        None
    } else {
        Some(name.skip(k + 1))
    }
}

// ---------------------------------------------------------------------------
// Render modes and file blocks

pub open spec fn docs_ignore_list(c: Config) -> Seq<String> {
    match c.docs_ignore {
        Some(v) => v@,
        None => seq![],
    }
}

/// Whether a docs-ignore pattern matches the file, by relative or absolute path.
pub open spec fn docs_ignored(c: Config, rel: Seq<char>, abs: Seq<char>) -> bool {
    exists|i: int|
        0 <= i < docs_ignore_list(c).len() && (glob_matches(
            #[trigger] docs_ignore_list(c)[i]@,
            rel,
        ) || glob_matches(docs_ignore_list(c)[i]@, abs))
}

pub open spec fn language_text(c: Config) -> Seq<char> {
    match c.language {
        Some(l) => l@,
        None => seq![],
    }
}

/// The mode of a file: in a docs-only run whose language is Python, `.py` files
/// not matched by a docs-ignore pattern give signatures and other such files
/// nothing; otherwise notebooks give a transcript and all else its text.
pub open spec fn render_mode_of(c: Config, rel: Seq<char>, abs: Seq<char>) -> RenderMode {
    if c.docs_comments_only == Some(true) && !docs_ignored(c, rel, abs) && lower_of(language_text(c))
        == "python"@ {
        if extension_of(abs) == Some("py"@) {
            RenderMode::Signatures
        } else {
            RenderMode::Skip
        }
    } else if extension_of(abs) == Some("ipynb"@) {
        RenderMode::Notebook
    } else {
        RenderMode::Full
    }
}

/// The body that a file's content renders to, or none.
pub open spec fn body_of(content: FileContent, show_outputs: bool) -> Option<Seq<char>> {
    match content {
        FileContent::Text(s) => Some(s@),
        FileContent::Signatures(t) => {
            let sig = if t@.len() > 0 {
                signatures_of(t@)
            } else {
                seq![]
            };
            if is_blank(sig) {
                None
            } else {
                Some(sig)
            }
        },
        FileContent::Notebook(Some(doc)) => Some(notebook_text(doc, show_outputs)),
        _ => None,
    }
}

pub open spec fn shows_outputs(c: Config) -> bool {
    c.display_outputs == Some(true)
}

/// The (path, body) pairs of the files that give a block, in order.
pub open spec fn file_blocks(
    root: Seq<char>,
    files: Seq<FileEntry>,
    show_outputs: bool,
    hidden: spec_fn(Seq<char>) -> bool,
) -> Seq<(Seq<char>, Seq<char>)>
    decreases files.len(),
{
    if files.len() == 0 {
        seq![]
    } else {
        let before = file_blocks(root, files.drop_last(), show_outputs, hidden);
        let f = files.last();
        if hidden(display_path(root, f.path@)) {
            before
        } else {
            match body_of(f.content, show_outputs) {
                Some(b) => before.push((display_path(root, f.path@), b)),
                None => before,
            }
        }
    }
}

// ---------------------------------------------------------------------------
// Failures

/// The failure counts per directory, in order of first failure.
pub open spec fn failure_counts(
    root: Seq<char>,
    files: Seq<FileEntry>,
    hidden: spec_fn(Seq<char>) -> bool,
) -> Seq<(Seq<char>, nat)>
    decreases files.len(),
{
    if files.len() == 0 {
        seq![]
    } else {
        let before = failure_counts(root, files.drop_last(), hidden);
        let f = files.last();
        if f.content is Unreadable && !hidden(display_path(root, f.path@)) {
            bump(before, parent_key(f.path@))
        } else {
            before
        }
    }
}

/// One more failure under `key`: its count grows, or it is added with one.
pub open spec fn bump(counts: Seq<(Seq<char>, nat)>, key: Seq<char>) -> Seq<(Seq<char>, nat)> {
    if exists|i: int| 0 <= i < counts.len() && #[trigger] counts[i].0 == key {
        let i = choose|i: int| 0 <= i < counts.len() && #[trigger] counts[i].0 == key;
        counts.update(i, (key, counts[i].1 + 1))
    } else {
        counts.push((key, 1))
    }
}

/// `Directory '<d>' had <n> file(s) that could not be processed` and a line break.
pub open spec fn failure_summary(dir: Seq<char>, n: nat) -> Seq<char> {
    "Directory '"@ + dir + "' had "@ + decimal(n) + " file(s) that could not be processed"@ + seq![
        '\n',
    ]
}

pub open spec fn keys_unique(counts: Seq<(Seq<char>, nat)>) -> bool {
    forall|i: int, j: int|
        0 <= i < j < counts.len() ==> #[trigger] counts[i].0 != #[trigger] counts[j].0
}

// ---------------------------------------------------------------------------
// The document

/// The preamble lines, each followed by a line break, then a blank line.
pub open spec fn preamble_of(c: Config) -> Seq<char> {
    match c.prompts {
        Some(ps) => lines_text(ps@) + seq!['\n'],
        None => seq![],
    }
}

pub open spec fn lines_text(ps: Seq<String>) -> Seq<char>
    decreases ps.len(),
{
    if ps.len() == 0 {
        seq![]
    } else {
        lines_text(ps.drop_last()) + ps.last()@ + seq!['\n']
    }
}

/// Everything before the file blocks: preamble, root name, listing, blank line.
pub open spec fn header_of(c: Config, snap: RepoSnapshot, hidden: spec_fn(Seq<char>) -> bool) -> Seq<
    char,
> {
    preamble_of(c) + snap.root_name@ + seq!['\n'] + (if snap.tree@.len() > 0 {
        listing_from(snap.tree@, 0, 0, seq![], hidden)
    } else {
        seq![]
    }) + seq!['\n']
}

/// The absolute paths of files.
pub open spec fn paths_of(files: Seq<FileEntry>) -> Seq<Seq<char>> {
    files.map_values(|f: FileEntry| f.path@)
}

/// The files of a snapshot ordered by path, component by component (see
/// `law_path_order_by_components`); files with equal paths keep their order.
pub open spec fn ordered_files(files: Seq<FileEntry>) -> Seq<FileEntry> {
    let order = insertion_order(paths_of(files), files.len());
    Seq::new(order.len(), |j: int| files[order[j] as int])
}

/// The document of a run: the header, then the blocks of the files in path order.
pub open spec fn document_of(c: Config, snap: RepoSnapshot, hidden: spec_fn(Seq<char>) -> bool) -> Seq<
    char,
> {
    header_of(c, snap, hidden) + blocks_text(
        delimiter_of(c),
        file_blocks(snap.root@, ordered_files(snap.files@), shows_outputs(c), hidden),
    )
}

/// The paths that the rule set of a run leaves out.
pub open spec fn hidden_by(patterns: Seq<Seq<char>>) -> spec_fn(Seq<char>) -> bool {
    |p: Seq<char>| any_rule_matches(patterns, p)
}

pub open spec fn vcs_text_of(snap: RepoSnapshot) -> Option<Seq<char>> {
    match snap.vcs_ignore {
        Some(t) => Some(t@),
        None => None,
    }
}

/// The rule set of a run over a snapshot.
pub open spec fn run_patterns(c: Config, snap: RepoSnapshot) -> Seq<Seq<char>> {
    always_on_patterns(output_name(c)) + patterns_of_kept(requested_patterns(c, vcs_text_of(snap)))
}

proof fn lemma_shown_len(t: Seq<TreeEntry>, i: int, k: int, hidden: spec_fn(Seq<char>) -> bool)
    ensures
        shown_children(t, i, k, hidden).len() <= if k < 0 {
            0
        } else {
            k
        },
        forall|j: int|
            0 <= j < shown_children(t, i, k, hidden).len() ==> i < #[trigger] shown_children(
                t,
                i,
                k,
                hidden,
            )[j] < t.len(),
    decreases k,
{
    if k > 0 {
        lemma_shown_len(t, i, k - 1, hidden);
    }
}

fn shown_exec(t: &Vec<TreeEntry>, i: usize, res: &IgnoreResolver) -> (r: Vec<usize>)
    requires
        i < t@.len(),
    ensures
        r@.len() == shown_children(t@, i as int, entry_count(t@, i as int), hidden_by(patterns_of(res.rules@))).len(),
        forall|j: int| 0 <= j < r@.len() ==> r@[j] as int == shown_children(
            t@,
            i as int,
            entry_count(t@, i as int),
            hidden_by(patterns_of(res.rules@)),
        )[j],
{
    let ghost h = hidden_by(patterns_of(res.rules@));
    let n = t[i].children.len();
    let mut r: Vec<usize> = Vec::new();
    let mut k: usize = 0;
    while k < n
        invariant
            k <= n == entry_count(t@, i as int),
            i < t@.len(),
            h == hidden_by(patterns_of(res.rules@)),
            r@.len() == shown_children(t@, i as int, k as int, h).len(),
            forall|j: int| 0 <= j < r@.len() ==> r@[j] as int == shown_children(t@, i as int, k as int, h)[j],
        decreases n - k,
    {
        let c = t[i].children[k];
        if i < c && c < t.len() {
            if !res.is_ignored(t[c].rel_path.as_str()) {
                r.push(c);
            }
        }
        k = k + 1;
    }
    r
}

fn listing_exec(t: &Vec<TreeEntry>, i: usize, prefix: &str, res: &IgnoreResolver) -> (r: String)
    requires
        i < t@.len(),
    ensures
        r@ == listing_from(t@, i as int, 0, prefix@, hidden_by(patterns_of(res.rules@))),
    decreases t@.len() - i,
{
    let ghost h = hidden_by(patterns_of(res.rules@));
    let shown = shown_exec(t, i, res);
    proof {
        lemma_shown_len(t@, i as int, entry_count(t@, i as int), h);
    }
    let m = shown.len();
    let mut out = String::new();
    let mut k: usize = 0;
    while k < m
        invariant
            k <= m == shown@.len(),
            i < t@.len(),
            h == hidden_by(patterns_of(res.rules@)),
            m == shown_children(t@, i as int, entry_count(t@, i as int), h).len(),
            m <= entry_count(t@, i as int),
            forall|j: int| 0 <= j < m ==> shown@[j] as int == shown_children(t@, i as int, entry_count(t@, i as int), h)[j],
            forall|j: int| 0 <= j < m ==> i < #[trigger] shown@[j] < t@.len(),
            out@ + listing_from(t@, i as int, k as int, prefix@, h) == listing_from(
                t@,
                i as int,
                0,
                prefix@,
                h,
            ),
        decreases m - k,
    {
        let c = shown[k];
        let last = k + 1 == m;
        let ghost before = out@;
        let kind = t[c].kind;
        if kind == EntryKind::Dir || kind == EntryKind::File {
            out.append(prefix);
            if last {
                out.append("└── ");
            } else {
                out.append("├── ");
            }
            out.append(t[c].name.as_str());
            push_char(&mut out, '\n');
            proof {
                reveal_strlit("└── ");
                reveal_strlit("├── ");
                assert(out@ =~= before + (prefix@ + branch(last) + seq!['─', '─', ' '] + t@[c as int].name@
                    + seq!['\n']));
            }
            if kind == EntryKind::Dir {
                let mut sub_prefix = prefix.to_owned();
                if last {
                    sub_prefix.append("    ");
                } else {
                    sub_prefix.append("│   ");
                }
                proof {
                    reveal_strlit("    ");
                    reveal_strlit("│   ");
                    assert(sub_prefix@ =~= prefix@ + stem(last));
                }
                let sub = listing_exec(t, c, sub_prefix.as_str(), res);
                out.append(sub.as_str());
            }
        }
        proof {
            assert(out@ + listing_from(t@, i as int, k + 1, prefix@, h) =~= before + listing_from(
                t@,
                i as int,
                k as int,
                prefix@,
                h,
            ));
        }
        k = k + 1;
    }
    assert(out@ + seq![] =~= out@);
    out
}

/// The listing lines of the tree `t` (root first) under the rule set of `res`:
/// each shown entry on a line of its own, directories followed by their entries.
pub fn render_listing(t: &Vec<TreeEntry>, res: &IgnoreResolver) -> (r: String)
    ensures
        t@.len() > 0 ==> r@ == listing_from(t@, 0, 0, seq![], hidden_by(patterns_of(res.rules@))),
        t@.len() == 0 ==> r@.len() == 0,
{
    if t.len() == 0 {
        return String::new();
    }
    proof {
        reveal_strlit("");
    }
    let r = listing_exec(t, 0, "", res);
    assert(""@ =~= Seq::<char>::empty());
    r
}

fn last_index_of(v: &Vec<char>, lo: usize, c: char) -> (k: Option<usize>)
    requires
        lo <= v@.len(),
    ensures
        match k {
            Some(j) => lo <= j < v@.len() && v@[j as int] == c && forall|x: int| j < x < v@.len() ==> v@[x] != c,
            None => forall|x: int| lo <= x < v@.len() ==> v@[x] != c,
        },
{
    let mut j = v.len();
    while j > lo
        invariant
            lo <= j <= v@.len(),
            forall|x: int| j <= x < v@.len() ==> v@[x] != c,
        decreases j - lo,
    {
        if v[j - 1] == c {
            return Some(j - 1);
        }
        j = j - 1;
    }
    None
}

proof fn lemma_last_sep_is(s: Seq<char>, k: int)
    requires
        -1 <= k < s.len(),
        k == -1 || s[k] == '/',
        forall|x: int| k < x < s.len() ==> s[x] != '/',
    ensures
        last_sep(s) == k,
    decreases s.len(),
{
    if s.len() > 0 && s.last() != '/' {
        if k == s.len() - 1 {
            assert(false);
        }
        let t = s.drop_last();
        assert forall|x: int| k < x < t.len() implies t[x] != '/' by {
            assert(t[x] == s[x]);
        }
        if k >= 0 {
            assert(t[k] == s[k]);
        }
        lemma_last_sep_is(t, k);
    }
}

proof fn lemma_last_dot_is(s: Seq<char>, k: int)
    requires
        -1 <= k < s.len(),
        k == -1 || s[k] == '.',
        forall|x: int| k < x < s.len() ==> s[x] != '.',
    ensures
        last_dot(s) == k,
    decreases s.len(),
{
    if s.len() > 0 && s.last() != '.' {
        if k == s.len() - 1 {
            assert(false);
        }
        let t = s.drop_last();
        assert forall|x: int| k < x < t.len() implies t[x] != '.' by {
            assert(t[x] == s[x]);
        }
        if k >= 0 {
            assert(t[k] == s[k]);
        }
        lemma_last_dot_is(t, k);
    }
}

fn last_sep_exec(v: &Vec<char>) -> (k: Option<usize>)
    ensures
        match k {
            Some(j) => last_sep(v@) == j && j < v@.len(),
            None => last_sep(v@) == -1,
        },
{
    let r = last_index_of(v, 0, '/');
    proof {
        match r {
            Some(j) => lemma_last_sep_is(v@, j as int),
            None => lemma_last_sep_is(v@, -1),
        }
    }
    r
}

/// The extension of the file that `path` names.
pub fn extension(path: &str) -> (r: Option<String>)
    ensures
        match r {
            Some(e) => extension_of(path@) == Some(e@),
            None => extension_of(path@) is None,
        },
{
    let v = chars_of(path);
    let vl = v.len();
    let start = match last_sep_exec(&v) {
        Some(j) => j + 1,
        None => 0,
    };
    let ghost name = v@.skip(start as int);
    let d = last_index_of(&v, start, '.');
    match d {
        Some(j) => {
            proof {
                assert forall|x: int| j - start < x < name.len() implies name[x] != '.' by {
                    assert(name[x] == v@[start + x]);
                }
                lemma_last_dot_is(name, j - start);
            }
            if j == start {
                None
            } else {
                let e = string_of_range(&v, j + 1, vl);
                assert(name.skip(j - start + 1) =~= v@.subrange(j + 1, v@.len() as int));
                Some(e)
            }
        },
        None => {
            proof {
                assert forall|x: int| -1 < x < name.len() implies name[x] != '.' by {
                    assert(name[x] == v@[start + x]);
                }
                lemma_last_dot_is(name, -1);
            }
            None
        },
    }
}

/// The path of `abs` relative to the canonical `root`, or `abs` itself when it
/// lies elsewhere.
pub fn relative_display(root: &str, abs: &str) -> (r: String)
    ensures
        r@ == display_path(root@, abs@),
{
    let rv = chars_of(root);
    let av = chars_of(abs);
    let mut d = rv.clone();
    let rn = rv.len();
    if rn == 0 || rv[rn - 1] != '/' {
        d.push('/');
    }
    assert(d@ =~= dir_prefix(rv@));
    let an = av.len();
    assert(av@.subrange(0, an as int) =~= av@);
    if crate::text::has_prefix_at(&av, 0, an, &d) {
        let r = string_of_range(&av, d.len(), an);
        r
    } else {
        abs.to_owned()
    }
}

/// The directory under which a failure of the file at `abs` is counted.
pub fn parent_key_of(abs: &str) -> (r: String)
    ensures
        r@ == parent_key(abs@),
{
    let v = chars_of(abs);
    match last_sep_exec(&v) {
        Some(0) => {
            let mut r = String::new();
            push_char(&mut r, '/');
            assert(r@ =~= seq!['/']);
            r
        },
        Some(j) => {
            let r = string_of_range(&v, 0, j);
            assert(v@.take(j as int) =~= v@.subrange(0, j as int));
            r
        },
        None => String::new(),
    }
}

/// How the file at `abs` (`rel` relative to the root) is rendered in a run.
pub fn render_mode(config: &Config, rel: &str, abs: &str) -> (r: RenderMode)
    ensures
        r == render_mode_of(*config, rel@, abs@),
{
    let ext = extension(abs);
    let py = match &ext {
        Some(e) => same_text(e.as_str(), "py"),
        None => false,
    };
    let nb = match &ext {
        Some(e) => same_text(e.as_str(), "ipynb"),
        None => false,
    };
    let docs_only = match config.docs_comments_only {
        Some(b) => b,
        None => false,
    };
    if docs_only {
        let mut ignored = false;
        let ghost list = docs_ignore_list(*config);
        match &config.docs_ignore {
            Some(pats) => {
                let mut i: usize = 0;
                while i < pats.len()
                    invariant
                        i <= pats@.len(),
                        list == pats@,
                        ignored == (exists|j: int|
                            0 <= j < i && (glob_matches(#[trigger] list[j]@, rel@) || glob_matches(
                                list[j]@,
                                abs@,
                            ))),
                    decreases pats@.len() - i,
                {
                    let p = pats[i].as_str();
                    if glob_match(p, rel) || glob_match(p, abs) {
                        ignored = true;
                    }
                    i = i + 1;
                }
            },
            None => {},
        }
        if !ignored {
            let lang: &str = match &config.language {
                Some(l) => l.as_str(),
                None => "",
            };
            proof {
                reveal_strlit("");
                assert(""@ =~= Seq::<char>::empty());
            }
            let lowered = lowercase(lang);
            if same_text(lowered.as_str(), "python") {
                return if py {
                    RenderMode::Signatures
                } else {
                    RenderMode::Skip
                };
            }
        }
    }
    if nb {
        RenderMode::Notebook
    } else {
        RenderMode::Full
    }
}

/// The body that `content` renders to, or `None` when the file gives no block.
/// A signature-only rendering that is blank gives no block.
pub fn render_body(content: &FileContent, show_outputs: bool) -> (r: Option<String>)
    ensures
        match r {
            Some(b) => body_of(*content, show_outputs) == Some(b@),
            None => body_of(*content, show_outputs) is None,
        },
{
    match content {
        FileContent::Text(s) => Some(s.clone()),
        FileContent::Signatures(t) => {
            let sig = extract_python_signatures(t);
            let v = chars_of(sig.as_str());
            let n = v.len();
            assert(v@.subrange(0, n as int) =~= v@);
            let (a, b) = trim_bounds(&v, 0, n);
            if a == b {
                None
            } else {
                Some(sig)
            }
        },
        FileContent::Notebook(Some(doc)) => Some(render_notebook(doc, show_outputs)),
        _ => None,
    }
}

/// The views of a sequence of strings.
pub open spec fn texts(v: Seq<String>) -> Seq<Seq<char>> {
    v.map_values(|s: String| s@)
}

/// One summary line per directory, in order.
pub open spec fn summaries_of(counts: Seq<(Seq<char>, nat)>) -> Seq<Seq<char>>
    decreases counts.len(),
{
    if counts.len() == 0 {
        seq![]
    } else {
        summaries_of(counts.drop_last()).push(failure_summary(counts.last().0, counts.last().1))
    }
}

/// The views of failure counts.
pub open spec fn counts_view(v: Seq<(String, usize)>) -> Seq<(Seq<char>, nat)> {
    v.map_values(|e: (String, usize)| (e.0@, e.1 as nat))
}

fn bump_exec(counts: &mut Vec<(String, usize)>, key: String, bound: usize)
    requires
        bound > 0,
        keys_unique(counts_view(old(counts)@)),
        forall|j: int| 0 <= j < old(counts)@.len() ==> #[trigger] old(counts)@[j].1 < bound,
    ensures
        counts_view(final(counts)@) == bump(counts_view(old(counts)@), key@),
        keys_unique(counts_view(final(counts)@)),
        forall|j: int| 0 <= j < final(counts)@.len() ==> #[trigger] final(counts)@[j].1 <= bound,
{
    let ghost cv = counts_view(counts@);
    let mut i: usize = 0;
    while i < counts.len()
        invariant
            i <= counts@.len(),
            cv == counts_view(counts@),
            counts@ == old(counts)@,
            keys_unique(cv),
            bound > 0,
            forall|j: int| 0 <= j < counts@.len() ==> #[trigger] counts@[j].1 < bound,
            forall|j: int| 0 <= j < i ==> #[trigger] cv[j].0 != key@,
        decreases counts@.len() - i,
    {
        if same_text(counts[i].0.as_str(), key.as_str()) {
            let n = counts[i].1;
            assert(counts@[i as int].1 < bound);
            proof {
                assert(cv[i as int].0 == key@);
                let w = choose|w: int| 0 <= w < cv.len() && #[trigger] cv[w].0 == key@;
                assert(w == i) by {
                    if w < i {
                        assert(cv[w].0 != key@);
                    } else if w > i {
                        assert(cv[i as int].0 != cv[w].0);
                    }
                }
                assert(bump(cv, key@) == cv.update(i as int, (key@, cv[i as int].1 + 1)));
            }
            counts.set(i, (key, n + 1));
            assert(counts_view(counts@) =~= cv.update(i as int, (key@, (n + 1) as nat)));
            assert(counts_view(counts@) == bump(counts_view(old(counts)@), key@));
            return;
        }
        i = i + 1;
    }
    counts.push((key, 1));
    assert(counts_view(counts@) =~= cv.push((key@, 1nat)));
}

fn summary_line(dir: &str, n: usize) -> (r: String)
    ensures
        r@ == failure_summary(dir@, n as nat),
{
    let mut r = String::new();
    r.append("Directory '");
    r.append(dir);
    r.append("' had ");
    r.append(decimal_string(n).as_str());
    r.append(" file(s) that could not be processed");
    push_char(&mut r, '\n');
    assert(r@ =~= failure_summary(dir@, n as nat));
    r
}

/// Builds a document from a snapshot of a repository.
pub trait GenerateOperation {
    /// The document of a run over `repo`, with one summary per directory in which
    /// files could not be processed.
    fn run(&self, config: &Config, repo: &RepoSnapshot) -> (String, Vec<String>);
}

/// The serializer of a repository snapshot.
#[derive(Debug, Default, Clone, Copy)]
pub struct Generator;

impl GenerateOperation for Generator {
    fn run(&self, config: &Config, repo: &RepoSnapshot) -> (r: (String, Vec<String>))
        ensures
            r.0@ == document_of(*config, *repo, hidden_by(run_patterns(*config, *repo))),
            texts(r.1@) == summaries_of(
                failure_counts(
                    repo.root@,
                    ordered_files(repo.files@),
                    hidden_by(run_patterns(*config, *repo)),
                ),
            ),
    {
        let vcs: Option<&str> = match &repo.vcs_ignore {
            Some(t) => Some(t.as_str()),
            None => None,
        };
        let (res, _dropped) = IgnoreResolver::for_config(config, vcs);
        let ghost h = hidden_by(run_patterns(*config, *repo));
        assert(crate::ignore_rules::opt_str_view(vcs) == vcs_text_of(*repo));
        assert(h == hidden_by(patterns_of(res.rules@)));
        let delimiter = config.delimiter();
        let show = match config.display_outputs {
            Some(b) => b,
            None => false,
        };
        let mut out = String::new();
        match &config.prompts {
            Some(ps) => {
                let mut i: usize = 0;
                assert(ps@.take(0) =~= seq![]);
                while i < ps.len()
                    invariant
                        i <= ps@.len(),
                        out@ == lines_text(ps@.take(i as int)),
                    decreases ps@.len() - i,
                {
                    assert(ps@.take(i + 1).drop_last() =~= ps@.take(i as int));
                    out.append(ps[i].as_str());
                    push_char(&mut out, '\n');
                    i = i + 1;
                }
                assert(ps@.take(i as int) =~= ps@);
                push_char(&mut out, '\n');
            },
            None => {},
        }
        out.append(repo.root_name.as_str());
        push_char(&mut out, '\n');
        let listing = render_listing(&repo.tree, &res);
        out.append(listing.as_str());
        push_char(&mut out, '\n');
        assert(out@ =~= header_of(*config, *repo, h));
        let ghost header = out@;
        let mut counts: Vec<(String, usize)> = Vec::new();
        let files = &repo.files;
        let mut paths: Vec<String> = Vec::new();
        let mut j: usize = 0;
        while j < files.len()
            invariant
                j <= files@.len(),
                paths@.len() == j,
                forall|x: int| 0 <= x < j ==> #[trigger] paths@[x]@ == files@[x].path@,
            decreases files@.len() - j,
        {
            paths.push(files[j].path.clone());
            j = j + 1;
        }
        assert(paths@.map_values(|s: String| s@) =~= paths_of(files@));
        let order = sorted_order(&paths);
        let ghost sorted = ordered_files(files@);
        assert(sorted.len() == order@.len());
        let mut i: usize = 0;
        assert(sorted.take(0) =~= seq![]);
        assert(counts_view(counts@) =~= seq![]);
        while i < order.len()
            invariant
                i <= order@.len(),
                files@ == repo.files@,
                sorted == ordered_files(files@),
                order@ == insertion_order(paths_of(files@), files@.len()),
                is_permutation(order@, files@.len()),
                h == hidden_by(patterns_of(res.rules@)),
                delimiter@ == delimiter_of(*config),
                show == shows_outputs(*config),
                out@ == header + blocks_text(
                    delimiter_of(*config),
                    file_blocks(repo.root@, sorted.take(i as int), show, h),
                ),
                counts_view(counts@) == failure_counts(repo.root@, sorted.take(i as int), h),
                keys_unique(counts_view(counts@)),
                forall|j: int| 0 <= j < counts@.len() ==> #[trigger] counts@[j].1 <= i,
            decreases order@.len() - i,
        {
            let f = &files[order[i]];
            assert(sorted[i as int] == *f);
            let ghost prev = file_blocks(repo.root@, sorted.take(i as int), show, h);
            assert(sorted.take(i + 1).drop_last() =~= sorted.take(i as int));
            assert(sorted.take(i + 1).last() == *f);
            let rel = relative_display(repo.root.as_str(), f.path.as_str());
            if !res.is_ignored(rel.as_str()) {
                match render_body(&f.content, show) {
                    Some(body) => {
                        let block = render_block(delimiter.as_str(), rel.as_str(), body.as_str());
                        out.append(block.as_str());
                        proof {
                            crate::document::lemma_blocks_text_push(
                                delimiter_of(*config),
                                prev,
                                (rel@, body@),
                            );
                        }
                    },
                    None => {},
                }
                if matches!(f.content, FileContent::Unreadable) {
                    let key = parent_key_of(f.path.as_str());
                    bump_exec(&mut counts, key, i + 1);
                }
            }
            assert forall|j: int| 0 <= j < counts@.len() implies #[trigger] counts@[j].1 <= i + 1 by {}
            i = i + 1;
        }
        assert(sorted.take(i as int) =~= sorted);
        let mut summaries: Vec<String> = Vec::new();
        let ghost cv = counts_view(counts@);
        let mut k: usize = 0;
        while k < counts.len()
            invariant
                k <= counts@.len(),
                cv == counts_view(counts@),
                texts(summaries@) == summaries_of(cv.take(k as int)),
            decreases counts@.len() - k,
        {
            let line = summary_line(counts[k].0.as_str(), counts[k].1);
            summaries.push(line);
            assert(cv.take(k + 1).drop_last() =~= cv.take(k as int));
            assert(texts(summaries@) =~= summaries_of(cv.take(k + 1)));
            k = k + 1;
        }
        assert(cv.take(k as int) =~= cv);
        (out, summaries)
    }
}

/// Round trip of a generated document: when the delimiter is one token, no line
/// before the blocks is a fence, and every rendered file is one that its block
/// carries unchanged, parsing the document gives back exactly the rendered files'
/// paths and contents, in order.
pub proof fn law_generated_round_trip(
    c: Config,
    snap: RepoSnapshot,
    hidden: spec_fn(Seq<char>) -> bool,
)
    requires
        plain_delimiter(delimiter_of(c)),
        fence_free_header(header_of(c, snap, hidden), delimiter_of(c)),
        forall|i: int|
            0 <= i < file_blocks(snap.root@, ordered_files(snap.files@), shows_outputs(c), hidden).len()
                ==> round_trip_safe(
                #[trigger] file_blocks(snap.root@, ordered_files(snap.files@), shows_outputs(c), hidden)[i].0,
                file_blocks(snap.root@, ordered_files(snap.files@), shows_outputs(c), hidden)[i].1,
                delimiter_of(c),
            ),
    ensures
        parse_document(document_of(c, snap, hidden), delimiter_of(c)) == file_blocks(
            snap.root@,
            ordered_files(snap.files@),
            shows_outputs(c),
            hidden,
        ),
{
    law_round_trip(
        header_of(c, snap, hidden),
        file_blocks(snap.root@, ordered_files(snap.files@), shows_outputs(c), hidden),
        delimiter_of(c),
    );
}

/// In signature-only mode, a module with no function or class definition and no
/// module docstring gives no block at all.
pub proof fn law_docs_only_emptiness(content: FileContent, show_outputs: bool)
    requires
        content matches FileContent::Signatures(t) && t@.len() > 0 && module_docstring(t@, 0).len()
            == 0 && no_definitions(t@),
    ensures
        body_of(content, show_outputs) is None,
{
    if let FileContent::Signatures(t) = content {
        crate::signatures::law_no_definitions_no_signatures(t@);
        lemma_trim_empty(signatures_of(t@));
    }
}

proof fn lemma_blocks_not_hidden(
    root: Seq<char>,
    files: Seq<FileEntry>,
    show: bool,
    hidden: spec_fn(Seq<char>) -> bool,
)
    ensures
        forall|k: int|
            0 <= k < file_blocks(root, files, show, hidden).len() ==> !hidden(
                #[trigger] file_blocks(root, files, show, hidden)[k].0,
            ),
    decreases files.len(),
{
    if files.len() > 0 {
        let before = file_blocks(root, files.drop_last(), show, hidden);
        let all = file_blocks(root, files, show, hidden);
        lemma_blocks_not_hidden(root, files.drop_last(), show, hidden);
        assert forall|k: int| 0 <= k < all.len() implies !hidden(#[trigger] all[k].0) by {
            if k < before.len() {
                assert(all[k] == before[k]);
            }
        }
    }
}

/// A run never renders its own output file: no block of the document carries the
/// output file's name as its path, and the listing leaves that name out.
pub proof fn law_output_never_rendered(c: Config, snap: RepoSnapshot)
    ensures
        forall|k: int|
            0 <= k < file_blocks(
                snap.root@,
                ordered_files(snap.files@),
                shows_outputs(c),
                hidden_by(run_patterns(c, snap)),
            ).len() ==> #[trigger] file_blocks(
                snap.root@,
                ordered_files(snap.files@),
                shows_outputs(c),
                hidden_by(run_patterns(c, snap)),
            )[k].0 != output_name(c),
        hidden_by(run_patterns(c, snap))(output_name(c)),
{
    let ps = run_patterns(c, snap);
    assert(ps[0] == output_name(c));
    assert(crate::ignore_rules::rule_matches(ps[0], output_name(c)));
    assert(any_rule_matches(ps, output_name(c)));
    lemma_blocks_not_hidden(
        snap.root@,
        ordered_files(snap.files@),
        shows_outputs(c),
        hidden_by(ps),
    );
}

} // verus!
