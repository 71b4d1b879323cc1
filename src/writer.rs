//! The file writer: the decisions that put one parsed block on disk under a
//! repository root, as a machine from event to next action. The caller performs
//! each action (create a directory, resolve it, write, rename, remove) and reports
//! back. A path whose `..` segments climb above the root ends its block at once.
//! Otherwise directories are created one segment at a time, each inside a
//! directory already resolved within the root, and a directory that resolves
//! (through links) outside the root ends the block before anything more is
//! created or written; every write and rename lies beneath the canonical root.
use vstd::prelude::*;
use vstd::string::*;
use crate::parser::{blocks_view, default_delimiter, parse_blocks, parse_document, CodeBlock};
use crate::text::{chars_of, push_char, string_of_range, string_views};
use crate::order::{component_len, lemma_component_len};

verus! {

/// `s` without the `/` characters at its end.
pub open spec fn strip_trailing_slashes(s: Seq<char>) -> Seq<char>
    decreases s.len(),
{
    if s.len() > 0 && s.last() == '/' {
        strip_trailing_slashes(s.drop_last())
    } else {
        s
    }
}

/// Index of the last `/` of `s`, or -1.
pub open spec fn last_sep(s: Seq<char>) -> int
    decreases s.len(),
{
    if s.len() == 0 {
        -1
    } else if s.last() == '/' {
        s.len() - 1
    } else {
        last_sep(s.drop_last())
    }
}

/// The file name that an announced path ends in.
pub open spec fn target_name(target: Seq<char>) -> Seq<char> {
    let t = strip_trailing_slashes(target);
    t.skip(last_sep(t) + 1)
}

/// Whether an announced path ends in a file name: not empty, `.` or `..`.
pub open spec fn has_file_name(target: Seq<char>) -> bool {
    let n = target_name(target);
    n.len() > 0 && n != seq!['.'] && n != seq!['.', '.']
}

/// The directory that is to hold the file, the announced path being read relative
/// to `root` even when it starts with `/`.
pub open spec fn parent_dir(root: Seq<char>, target: Seq<char>) -> Seq<char> {
    let t = strip_trailing_slashes(target);
    let k = last_sep(t);
    if k < 0 {
        root
    } else {
        dir_prefix(root) + t.take(k)
    }
}

/// The part of an announced path before its file name (empty when there is none).
pub open spec fn parent_rel(target: Seq<char>) -> Seq<char> {
    let t = strip_trailing_slashes(target);
    let k = last_sep(t);
    if k < 0 {
        seq![]
    } else {
        t.take(k)
    }
}

/// End of the `/`-separated segment of `s` that starts at `i`.
pub open spec fn seg_end(s: Seq<char>, i: int) -> int
    decreases s.len() - i,
{
    if i < 0 || i >= s.len() || s[i] == '/' {
        i
    } else {
        seg_end(s, i + 1)
    }
}

/// Reading `s` segment by segment from index `i`, `depth` directories below the
/// start: whether a `..` ever climbs above the start. Empty and `.` segments stay.
pub open spec fn climbs_from(s: Seq<char>, i: int, depth: int) -> bool
    decreases s.len() - i,
{
    if i < 0 || i > s.len() {
        false
    } else {
        let e = seg_end(s, i);
        let seg = s.subrange(i, e);
        let next = if seg == seq!['.', '.'] {
            depth - 1
        } else if seg.len() == 0 || seg == seq!['.'] {
            depth
        } else {
            depth + 1
        };
        if next < 0 {
            true
        } else if i <= e && e < s.len() {
            climbs_from(s, e + 1, next)
        } else {
            false
        }
    }
}

/// The directories to pass through for the relative path `s`, in order: its
/// `/`-separated segments without the empty and `.` ones.
pub open spec fn dir_segments(s: Seq<char>) -> Seq<Seq<char>>
    decreases s.len(),
{
    if s.len() == 0 {
        seq![]
    } else {
        let i = component_len(s) as int;
        let c = s.take(i);
        let rest = if i < s.len() {
            dir_segments(s.skip(i + 1))
        } else {
            seq![]
        };
        if c.len() == 0 || c == seq!['.'] {
            rest
        } else {
            seq![c] + rest
        }
    }
}

/// Each directory to pass through is one non-empty segment other than `.`, with
/// no `/` in it: creating it makes at most one directory, directly inside the
/// directory it is joined to (or, for `..`, names that directory's existing parent).
pub proof fn law_segments_are_single(s: Seq<char>)
    ensures
        forall|k: int|
            0 <= k < dir_segments(s).len() ==> {
                let seg = #[trigger] dir_segments(s)[k];
                seg.len() > 0 && seg != seq!['.'] && !seg.contains('/')
            },
    decreases s.len(),
{
    if s.len() > 0 {
        lemma_component_len(s);
        let i = component_len(s) as int;
        let c = s.take(i);
        if i < s.len() {
            law_segments_are_single(s.skip(i + 1));
        }
        assert(!c.contains('/')) by {
            if c.contains('/') {
                let j = choose|j: int| 0 <= j < c.len() && c[j] == '/';
                assert(s[j] == '/');
            }
        }
        let rest = if i < s.len() {
            dir_segments(s.skip(i + 1))
        } else {
            seq![]
        };
        if !(c.len() == 0 || c == seq!['.']) {
            assert forall|k: int| 0 <= k < dir_segments(s).len() implies {
                let seg = #[trigger] dir_segments(s)[k];
                seg.len() > 0 && seg != seq!['.'] && !seg.contains('/')
            } by {
                if k > 0 {
                    assert(dir_segments(s)[k] == rest[k - 1]);
                }
            }
        }
    }
}

proof fn lemma_component_len_is(s: Seq<char>, k: int)
    requires
        0 <= k <= s.len(),
        forall|j: int| 0 <= j < k ==> s[j] != '/',
        k == s.len() || s[k] == '/',
    ensures
        component_len(s) == k,
{
    lemma_component_len(s);
    if (component_len(s) as int) < k {
        assert(s[component_len(s) as int] == '/');
    }
}

fn dir_segments_exec(v: &Vec<char>) -> (r: Vec<String>)
    ensures
        string_views(r@) == dir_segments(v@),
{
    let n = v.len();
    let mut r: Vec<String> = Vec::new();
    let mut start: usize = 0;
    let mut i: usize = 0;
    assert(v@.skip(0) =~= v@);
    assert(string_views(r@) + dir_segments(v@) =~= dir_segments(v@));
    while i < n
        invariant
            start <= i <= n == v@.len(),
            forall|j: int| start <= j < i ==> v@[j] != '/',
            string_views(r@) + dir_segments(v@.skip(start as int)) == dir_segments(v@),
        decreases n - i,
    {
        if v[i] == '/' {
            let ghost t = v@.skip(start as int);
            let ghost k = i - start;
            proof {
                assert forall|j: int| 0 <= j < k implies t[j] != '/' by {
                    assert(t[j] == v@[start + j]);
                }
                lemma_component_len_is(t, k);
                assert(t.skip(k + 1) =~= v@.skip(i + 1));
                assert(t.take(k) =~= v@.subrange(start as int, i as int));
            }
            let ghost before = string_views(r@);
            let len = i - start;
            let skip = len == 0 || (len == 1 && v[start] == '.');
            proof {
                if len == 1 {
                    if v@[start as int] == '.' {
                        assert(t.take(k) =~= seq!['.']);
                    } else {
                        assert(t.take(k)[0] != '.');
                    }
                }
            }
            if !skip {
                let seg = string_of_range(v, start, i);
                r.push(seg);
                assert(string_views(r@) =~= before.push(t.take(k)));
                assert(string_views(r@) + dir_segments(v@.skip(i + 1)) =~= before + (seq![t.take(k)]
                    + dir_segments(t.skip(k + 1))));
            }
            start = i + 1;
        }
        i = i + 1;
    }
    let ghost t = v@.skip(start as int);
    let ghost k = n - start;
    if start < n {
        proof {
            assert forall|j: int| 0 <= j < k implies t[j] != '/' by {
                assert(t[j] == v@[start + j]);
            }
            lemma_component_len_is(t, k);
            assert(t.take(k) =~= t);
        }
        let len = n - start;
        let skip = len == 1 && v[start] == '.';
        proof {
            if len == 1 {
                if v@[start as int] == '.' {
                    assert(t =~= seq!['.']);
                } else {
                    assert(t[0] != '.');
                }
            }
        }
        if !skip {
            let ghost before = string_views(r@);
            let seg = string_of_range(v, start, n);
            assert(seg@ =~= t);
            r.push(seg);
            assert(string_views(r@) =~= before + seq![t]);
        } else {
            assert(string_views(r@) + seq![] =~= string_views(r@));
        }
    } else {
        assert(t =~= Seq::<char>::empty());
        assert(string_views(r@) + seq![] =~= string_views(r@));
    }
    r
}

/// Whether the relative path `s` leads above its starting directory.
pub open spec fn climbs_above(s: Seq<char>) -> bool {
    climbs_from(s, 0, 0)
}

/// `dir` as a prefix of the paths beneath it: with one final `/`.
pub open spec fn dir_prefix(dir: Seq<char>) -> Seq<char> {
    if dir.len() > 0 && dir.last() == '/' {
        dir
    } else {
        dir + seq!['/']
    }
}

/// The path of `name` inside `dir`.
pub open spec fn join(dir: Seq<char>, name: Seq<char>) -> Seq<char> {
    dir_prefix(dir) + name
}

/// `p` lies strictly beneath the directory `root`.
pub open spec fn under(root: Seq<char>, p: Seq<char>) -> bool {
    dir_prefix(root).is_prefix_of(p)
}

/// `p` is the directory `root` or lies beneath it.
pub open spec fn within_root(root: Seq<char>, p: Seq<char>) -> bool {
    p == root || under(root, p)
}

/// The hidden sibling that receives the content before the rename.
pub open spec fn temp_name(name: Seq<char>, suffix: Seq<char>) -> Seq<char> {
    seq!['.'] + name + seq!['.', 't', 'm', 'p', '.'] + suffix
}

pub open spec fn is_alphanumeric(c: char) -> bool {
    ('a' <= c && c <= 'z') || ('A' <= c && c <= 'Z') || ('0' <= c && c <= '9')
}

/// A file inside a directory that lies within the root lies strictly beneath it.
pub proof fn lemma_join_under(root: Seq<char>, p: Seq<char>, name: Seq<char>)
    requires
        within_root(root, p),
    ensures
        under(root, join(p, name)),
{
    let d = dir_prefix(root);
    let j = join(p, name);
    if p == root {
        assert(j.subrange(0, d.len() as int) =~= d);
    } else {
        assert(p.subrange(0, d.len() as int) =~= d);
        assert(dir_prefix(p).subrange(0, p.len() as int) =~= p);
        assert(j.subrange(0, d.len() as int) =~= d);
    }
}

/// What a block's write ended in.
#[derive(Debug, Clone)]
pub enum WriteOutcome {
    /// The content now stands at this path.
    Written(String),
    /// The announced path names no file.
    NoFileName,
    /// The directory could not be created or resolved.
    DirectoryFailed,
    /// The resolved path lies outside the root: nothing was written.
    Escapes(String),
    /// The temporary file could not be written; it was removed.
    WriteFailed,
    /// The rename failed; the temporary file was removed.
    RenameFailed,
}

/// What a [`WriteOutcome`] says, with its paths as character sequences.
pub enum OutcomeModel {
    Written(Seq<char>),
    NoFileName,
    DirectoryFailed,
    Escapes(Seq<char>),
    WriteFailed,
    RenameFailed,
}

pub open spec fn outcome_model(o: WriteOutcome) -> OutcomeModel {
    match o {
        WriteOutcome::Written(p) => OutcomeModel::Written(p@),
        WriteOutcome::NoFileName => OutcomeModel::NoFileName,
        WriteOutcome::DirectoryFailed => OutcomeModel::DirectoryFailed,
        WriteOutcome::Escapes(p) => OutcomeModel::Escapes(p@),
        WriteOutcome::WriteFailed => OutcomeModel::WriteFailed,
        WriteOutcome::RenameFailed => OutcomeModel::RenameFailed,
    }
}

fn copy_outcome(o: &WriteOutcome) -> (r: WriteOutcome)
    ensures
        outcome_model(r) == outcome_model(*o),
{
    match o {
        WriteOutcome::Written(p) => WriteOutcome::Written(p.clone()),
        WriteOutcome::NoFileName => WriteOutcome::NoFileName,
        WriteOutcome::DirectoryFailed => WriteOutcome::DirectoryFailed,
        WriteOutcome::Escapes(p) => WriteOutcome::Escapes(p.clone()),
        WriteOutcome::WriteFailed => WriteOutcome::WriteFailed,
        WriteOutcome::RenameFailed => WriteOutcome::RenameFailed,
    }
}

fn climbs_exec(v: &Vec<char>, i: usize, depth: usize) -> (r: bool)
    requires
        i <= v@.len(),
        depth <= i,
    ensures
        r == climbs_from(v@, i as int, depth as int),
    decreases v@.len() - i,
{
    let n = v.len();
    let mut e = i;
    while e < n && v[e] != '/'
        invariant
            i <= e <= n == v@.len(),
            seg_end(v@, i as int) == seg_end(v@, e as int),
        decreases n - e,
    {
        e = e + 1;
    }
    let ghost seg = v@.subrange(i as int, e as int);
    let len = e - i;
    let dotdot = len == 2 && v[i] == '.' && v[i + 1] == '.';
    let stay = len == 0 || (len == 1 && v[i] == '.');
    proof {
        if dotdot {
            assert(seg =~= seq!['.', '.']);
        } else if len == 2 {
            assert(seg[0] != '.' || seg[1] != '.');
        }
        if len == 1 {
            if v[i as int] == '.' {
                assert(seg =~= seq!['.']);
            } else {
                assert(seg[0] != '.');
            }
        }
        assert(seg.len() == len);
    }
    if dotdot && depth == 0 {
        return true;
    }
    let next = if dotdot {
        depth - 1
    } else if stay {
        depth
    } else {
        depth + 1
    };
    if e < n {
        climbs_exec(v, e + 1, next)
    } else {
        false
    }
}

/// The next thing the caller is to do for a block.
#[derive(Debug, Clone)]
pub enum WriteAction {
    /// Create this directory and its parents; answer `Done` or `Failed`.
    CreateDir(String),
    /// Resolve this directory to its canonical form; answer `Resolved` or `Failed`.
    Canonicalize(String),
    /// Write the content to this temporary path; answer `Done` or `Failed`.
    WriteTemp(String, String),
    /// Rename the first path over the second; answer `Done` or `Failed`.
    Rename(String, String),
    /// Remove this temporary file; any answer ends the block.
    RemoveTemp(String),
    /// The block is done.
    Finish(WriteOutcome),
}

/// What the caller reports after an action.
#[derive(Debug, Clone)]
pub enum WriteEvent {
    Done,
    Failed,
    Resolved(String),
}

/// Where a block's writer stands.
#[derive(Debug, PartialEq, Eq, Structural, Clone, Copy)]
pub enum WritePhase {
    CreatingDir,
    Resolving,
    WritingTemp,
    Renaming,
    RemovingTemp,
    Finished,
}

/// The writer of one block.
pub struct BlockWriter {
    /// The canonical repository root.
    pub root: String,
    pub file_name: String,
    pub content: String,
    /// The random part of the temporary file's name.
    pub suffix: String,
    /// The directory that is to hold the file, as joined onto the root.
    pub parent: String,
    /// The directories to pass through below the root, one segment each.
    pub segments: Vec<String>,
    /// How many of `segments` have been created.
    pub next: usize,
    /// The directory being created or resolved.
    pub pending: String,
    pub final_path: String,
    pub temp_path: String,
    pub phase: WritePhase,
    /// The outcome once finished, or the one to report after removing the
    /// temporary file.
    pub outcome: WriteOutcome,
}

impl BlockWriter {
    /// The write and rename targets, once chosen, lie strictly beneath the root.
    pub open spec fn wf(&self) -> bool {
        &&& self.next <= self.segments@.len()
        &&& (self.phase == WritePhase::WritingTemp || self.phase == WritePhase::Renaming || self.phase
            == WritePhase::RemovingTemp) ==> under(self.root@, self.temp_path@) && under(
            self.root@,
            self.final_path@,
        )
    }

    /// A writer for `block` under the canonical root `root`, with `suffix` as the
    /// random part of its temporary file, and its first action: resolve the root;
    /// or finish when the path names no file or its `..` segments climb above the
    /// root.
    pub fn new(root: &str, block: &CodeBlock, suffix: &str) -> (r: (BlockWriter, WriteAction))
        ensures
            r.0.wf(),
            r.0.root@ == root@,
            r.0.content@ == block.content@,
            r.0.suffix@ == suffix@,
            r.0.file_name@ == target_name(block.target_path@),
            r.0.parent@ == parent_dir(root@, block.target_path@),
            string_views(r.0.segments@) == dir_segments(parent_rel(block.target_path@)),
            r.0.next == 0,
            !(r.1 is CreateDir),
            has_file_name(block.target_path@) && !climbs_above(parent_rel(block.target_path@))
                ==> {
                &&& r.0.phase == WritePhase::Resolving
                &&& r.0.pending@ == root@
                &&& r.1 matches WriteAction::Canonicalize(d) && d@ == root@
            },
            has_file_name(block.target_path@) && climbs_above(parent_rel(block.target_path@))
                ==> {
                &&& r.0.phase == WritePhase::Finished
                &&& r.1 matches WriteAction::Finish(WriteOutcome::Escapes(d)) && d@ == parent_dir(
                    root@,
                    block.target_path@,
                )
                &&& outcome_model(r.0.outcome) == OutcomeModel::Escapes(
                    parent_dir(root@, block.target_path@),
                )
            },
            !has_file_name(block.target_path@) ==> {
                &&& r.0.phase == WritePhase::Finished
                &&& r.1 matches WriteAction::Finish(WriteOutcome::NoFileName)
                &&& r.0.outcome is NoFileName
            },
    {
        let v = chars_of(block.target_path.as_str());
        let mut e = v.len();
        assert(v@.take(e as int) =~= v@);
        while e > 0 && v[e - 1] == '/'
            invariant
                e <= v@.len(),
                strip_trailing_slashes(v@) == strip_trailing_slashes(v@.take(e as int)),
            decreases e,
        {
            assert(v@.take(e as int).drop_last() =~= v@.take(e - 1));
            e = e - 1;
        }
        let ghost t = v@.take(e as int);
        assert(strip_trailing_slashes(t) == t);
        let mut k = e;
        assert(t.take(e as int) =~= t);
        while k > 0 && v[k - 1] != '/'
            invariant
                k <= e <= v@.len(),
                t == v@.take(e as int),
                last_sep(t) == last_sep(t.take(k as int)),
            decreases k,
        {
            assert(t.take(k as int).drop_last() =~= t.take(k - 1));
            assert(t.take(k as int).last() == v@[k - 1]);
            k = k - 1;
        }
        // `k` is one past the last separator, or 0 when there is none.
        proof {
            if k > 0 {
                assert(t.take(k as int).last() == '/');
                assert(last_sep(t) == k - 1);
            } else {
                assert(t.take(0) =~= seq![]);
                assert(last_sep(t) == -1);
            }
        }
        assert(t.skip(last_sep(t) + 1) =~= v@.subrange(k as int, e as int));
        let name = string_of_range(&v, k, e);
        let n = name.as_str().unicode_len();
        let is_dot = n == 1 && name.as_str().get_char(0) == '.';
        let is_dotdot = n == 2 && name.as_str().get_char(0) == '.' && name.as_str().get_char(1)
            == '.';
        proof {
            if is_dot {
                assert(name@ =~= seq!['.']);
            }
            if is_dotdot {
                assert(name@ =~= seq!['.', '.']);
            }
            if n == 1 && !is_dot {
                assert(name@ != seq!['.']);
            }
            if n == 2 && !is_dotdot {
                assert(name@[0] != '.' || name@[1] != '.');
                assert(name@ != seq!['.', '.']);
            }
        }
        let mut parent = root.to_owned();
        let rn = root.unicode_len();
        if rn == 0 || root.get_char(rn - 1) != '/' {
            push_char(&mut parent, '/');
        }
        proof {
            if rn > 0 && root@[rn - 1] == '/' {
                assert(parent@ == dir_prefix(root@));
            } else {
                assert(parent@ == dir_prefix(root@));
            }
        }
        let ghost prefix = parent@;
        let mut escapes = false;
        let mut segments: Vec<String> = Vec::new();
        if k > 0 {
            let head = string_of_range(&v, 0, k - 1);
            let hv = chars_of(head.as_str());
            escapes = climbs_exec(&hv, 0, 0);
            segments = dir_segments_exec(&hv);
            parent.append(head.as_str());
            assert(t.take(last_sep(t)) =~= v@.subrange(0, k - 1));
            assert(parent@ =~= dir_prefix(root@) + t.take(last_sep(t)));
            assert(parent@.skip(prefix.len() as int) =~= t.take(last_sep(t)));
            assert(prefix.is_prefix_of(parent@)) by {
                assert(parent@.subrange(0, prefix.len() as int) =~= prefix);
            }
        } else {
            parent = root.to_owned();
            assert(climbs_above(Seq::<char>::empty()) == false) by {
                let z = Seq::<char>::empty();
                assert(z.subrange(0, 0) =~= z);
            }
            assert(string_views(segments@) =~= dir_segments(Seq::<char>::empty()));
        }
        let no_name = n == 0 || is_dot || is_dotdot;
        let w = BlockWriter {
            root: root.to_owned(),
            file_name: name,
            content: block.content.clone(),
            suffix: suffix.to_owned(),
            parent: parent.clone(),
            segments,
            next: 0,
            pending: root.to_owned(),
            final_path: String::new(),
            temp_path: String::new(),
            phase: if no_name || escapes {
                WritePhase::Finished
            } else {
                WritePhase::Resolving
            },
            outcome: if no_name {
                WriteOutcome::NoFileName
            } else if escapes {
                WriteOutcome::Escapes(parent.clone())
            } else {
                WriteOutcome::NoFileName
            },
        };
        if no_name {
            (w, WriteAction::Finish(WriteOutcome::NoFileName))
        } else if escapes {
            (w, WriteAction::Finish(WriteOutcome::Escapes(parent)))
        } else {
            (w, WriteAction::Canonicalize(root.to_owned()))
        }
    }

    /// The action that follows `event`, the caller's report on the last action.
    /// Directories are created one segment at a time, each directly inside a
    /// directory already resolved within the root; a resolved directory outside the
    /// root ends the block with `Escapes`, before anything more is created or
    /// written. Every write and rename goes strictly beneath the root.
    pub fn advance(&mut self, event: WriteEvent) -> (act: WriteAction)
        requires
            old(self).wf(),
        ensures
            final(self).wf(),
            final(self).root == old(self).root,
            final(self).file_name == old(self).file_name,
            final(self).content == old(self).content,
            final(self).suffix == old(self).suffix,
            final(self).parent == old(self).parent,
            final(self).segments == old(self).segments,
            !(old(self).phase == WritePhase::Resolving && event is Resolved) ==> {
                &&& final(self).temp_path == old(self).temp_path
                &&& final(self).final_path == old(self).final_path
                &&& final(self).next == old(self).next
                &&& final(self).pending == old(self).pending
            },
            act matches WriteAction::WriteTemp(p, _) ==> under(old(self).root@, p@),
            act matches WriteAction::Rename(p, q) ==> under(old(self).root@, p@) && under(
                old(self).root@,
                q@,
            ),
            act matches WriteAction::CreateDir(d) ==> exists|p: Seq<char>, seg: Seq<char>|
                #![trigger join(p, seg)]
                within_root(old(self).root@, p) && d@ == join(p, seg) && seg
                    == string_views(old(self).segments@)[old(self).next as int],
            old(self).phase == WritePhase::CreatingDir ==> (if event is Done {
                &&& act matches WriteAction::Canonicalize(d) && d@ == old(self).pending@
                &&& final(self).phase == WritePhase::Resolving
            } else {
                &&& act matches WriteAction::Finish(WriteOutcome::DirectoryFailed)
                &&& final(self).phase == WritePhase::Finished
                &&& final(self).outcome is DirectoryFailed
            }),
            old(self).phase == WritePhase::Resolving ==> (match event {
                WriteEvent::Resolved(p) => if !within_root(old(self).root@, p@) {
                    &&& act matches WriteAction::Finish(WriteOutcome::Escapes(f)) && f@ == p@
                    &&& final(self).phase == WritePhase::Finished
                    &&& outcome_model(final(self).outcome) == OutcomeModel::Escapes(p@)
                } else if old(self).next < old(self).segments@.len() {
                    let d = join(p@, old(self).segments@[old(self).next as int]@);
                    &&& act matches WriteAction::CreateDir(c) && c@ == d
                    &&& final(self).phase == WritePhase::CreatingDir
                    &&& final(self).pending@ == d
                    &&& final(self).next == old(self).next + 1
                    &&& final(self).temp_path == old(self).temp_path
                    &&& final(self).final_path == old(self).final_path
                } else {
                    &&& act matches WriteAction::WriteTemp(t, c) && t@ == join(
                        p@,
                        temp_name(old(self).file_name@, old(self).suffix@),
                    ) && c@ == old(self).content@
                    &&& final(self).phase == WritePhase::WritingTemp
                    &&& final(self).temp_path@ == join(
                        p@,
                        temp_name(old(self).file_name@, old(self).suffix@),
                    )
                    &&& final(self).final_path@ == join(p@, old(self).file_name@)
                    &&& final(self).next == old(self).next
                },
                _ => {
                    &&& act matches WriteAction::Finish(WriteOutcome::DirectoryFailed)
                    &&& final(self).phase == WritePhase::Finished
                    &&& final(self).outcome is DirectoryFailed
                },
            }),
            old(self).phase == WritePhase::WritingTemp ==> (if event is Done {
                &&& act matches WriteAction::Rename(a, b) && a@ == old(self).temp_path@ && b@ == old(
                    self,
                ).final_path@
                &&& final(self).phase == WritePhase::Renaming
            } else {
                &&& act matches WriteAction::RemoveTemp(a) && a@ == old(self).temp_path@
                &&& final(self).phase == WritePhase::RemovingTemp
                &&& final(self).outcome is WriteFailed
            }),
            old(self).phase == WritePhase::Renaming ==> (if event is Done {
                &&& act matches WriteAction::Finish(WriteOutcome::Written(f)) && f@ == old(
                    self,
                ).final_path@
                &&& final(self).phase == WritePhase::Finished
                &&& outcome_model(final(self).outcome) == OutcomeModel::Written(
                    old(self).final_path@,
                )
            } else {
                &&& act matches WriteAction::RemoveTemp(a) && a@ == old(self).temp_path@
                &&& final(self).phase == WritePhase::RemovingTemp
                &&& final(self).outcome is RenameFailed
            }),
            old(self).phase == WritePhase::RemovingTemp || old(self).phase == WritePhase::Finished
                ==> {
                &&& act matches WriteAction::Finish(o) && outcome_model(o) == outcome_model(
                    old(self).outcome,
                )
                &&& final(self).phase == WritePhase::Finished
                &&& outcome_model(final(self).outcome) == outcome_model(old(self).outcome)
            },
    {
        match self.phase {
            WritePhase::CreatingDir => {
                if matches!(event, WriteEvent::Done) {
                    self.phase = WritePhase::Resolving;
                    WriteAction::Canonicalize(self.pending.clone())
                } else {
                    self.phase = WritePhase::Finished;
                    self.outcome = WriteOutcome::DirectoryFailed;
                    WriteAction::Finish(WriteOutcome::DirectoryFailed)
                }
            },
            WritePhase::Resolving => {
                match event {
                    WriteEvent::Resolved(p) => {
                        if !within_root_exec(self.root.as_str(), p.as_str()) {
                            self.phase = WritePhase::Finished;
                            self.outcome = WriteOutcome::Escapes(p.clone());
                            return WriteAction::Finish(WriteOutcome::Escapes(p));
                        }
                        let pv = chars_of(p.as_str());
                        let mut dir = p.clone();
                        if pv.len() == 0 || pv[pv.len() - 1] != '/' {
                            push_char(&mut dir, '/');
                        }
                        assert(dir@ == dir_prefix(p@));
                        if self.next < self.segments.len() {
                            let ghost seg = string_views(self.segments@)[self.next as int];
                            assert(seg == self.segments@[self.next as int]@);
                            dir.append(self.segments[self.next].as_str());
                            assert(dir@ == join(p@, seg));
                            self.pending = dir.clone();
                            self.next = self.next + 1;
                            self.phase = WritePhase::CreatingDir;
                            return WriteAction::CreateDir(dir);
                        }
                        let mut fin = dir.clone();
                        let mut tmp = dir;
                        fin.append(self.file_name.as_str());
                        push_char(&mut tmp, '.');
                        tmp.append(self.file_name.as_str());
                        tmp.append(".tmp.");
                        tmp.append(self.suffix.as_str());
                        proof {
                            reveal_strlit(".tmp.");
                            assert(tmp@ =~= join(p@, temp_name(self.file_name@, self.suffix@)));
                            lemma_join_under(self.root@, p@, self.file_name@);
                            lemma_join_under(self.root@, p@, temp_name(self.file_name@, self.suffix@));
                        }
                        self.final_path = fin;
                        self.temp_path = tmp.clone();
                        self.phase = WritePhase::WritingTemp;
                        WriteAction::WriteTemp(tmp, self.content.clone())
                    },
                    _ => {
                        self.phase = WritePhase::Finished;
                        self.outcome = WriteOutcome::DirectoryFailed;
                        WriteAction::Finish(WriteOutcome::DirectoryFailed)
                    },
                }
            },
            WritePhase::WritingTemp => {
                if matches!(event, WriteEvent::Done) {
                    self.phase = WritePhase::Renaming;
                    WriteAction::Rename(self.temp_path.clone(), self.final_path.clone())
                } else {
                    self.phase = WritePhase::RemovingTemp;
                    self.outcome = WriteOutcome::WriteFailed;
                    WriteAction::RemoveTemp(self.temp_path.clone())
                }
            },
            WritePhase::Renaming => {
                if matches!(event, WriteEvent::Done) {
                    self.phase = WritePhase::Finished;
                    self.outcome = WriteOutcome::Written(self.final_path.clone());
                    WriteAction::Finish(WriteOutcome::Written(self.final_path.clone()))
                } else {
                    self.phase = WritePhase::RemovingTemp;
                    self.outcome = WriteOutcome::RenameFailed;
                    WriteAction::RemoveTemp(self.temp_path.clone())
                }
            },
            WritePhase::RemovingTemp | WritePhase::Finished => {
                self.phase = WritePhase::Finished;
                WriteAction::Finish(copy_outcome(&self.outcome))
            },
        }
    }
}

/// Whether the canonical path `p` is the canonical `root` or lies beneath it.
pub fn within_root_exec(root: &str, p: &str) -> (r: bool)
    ensures
        r == within_root(root@, p@),
{
    let rv = chars_of(root);
    let pv = chars_of(p);
    let rn = rv.len();
    let pn = pv.len();
    let same = rn == pn;
    let mut i: usize = 0;
    let m = if rn < pn {
        rn
    } else {
        pn
    };
    while i < m
        invariant
            i <= m,
            m <= rn,
            m <= pn,
            rn == rv@.len(),
            pn == pv@.len(),
            rv@ == root@,
            pv@ == p@,
            forall|j: int| 0 <= j < i ==> rv@[j] == pv@[j],
        decreases m - i,
    {
        if rv[i] != pv[i] {
            proof {
                assert(rv@ != pv@) by {
                    assert(rv@[i as int] != pv@[i as int]);
                }
                let d = dir_prefix(rv@);
                assert(d[i as int] == rv@[i as int]);
                if d.len() <= pv@.len() {
                    assert(pv@.subrange(0, d.len() as int)[i as int] == pv@[i as int]);
                }
            }
            return false;
        }
        i = i + 1;
    }
    if same {
        assert(rv@ =~= pv@);
        return true;
    }
    // One of `root` and `p` is a proper prefix of the other.
    if rn >= pn {
        assert(rv@ != pv@);
        return false;
    }
    let ends_with_slash = rn > 0 && rv[rn - 1] == '/';
    proof {
        assert(pv@.subrange(0, rn as int) =~= rv@);
    }
    if ends_with_slash {
        return true;
    }
    let r = pv[rn] == '/';
    proof {
        let d = dir_prefix(rv@);
        assert(d =~= rv@ + seq!['/']);
        if r {
            assert(pv@.subrange(0, d.len() as int) =~= d);
        } else {
            assert(pv@.subrange(0, d.len() as int)[rn as int] != d[rn as int]);
        }
    }
    r
}

/// Relies on `rand`'s `Alphanumeric` distribution (`SampleString::sample_string`
/// with the thread-local generator): `len` characters drawn from A-Z, a-z and 0-9.
#[verifier::external_body]
fn random_alphanumeric(len: usize) -> (r: String)
    ensures
        r@.len() == len,
        forall|i: int| 0 <= i < len ==> is_alphanumeric(#[trigger] r@[i]),
{
    rand::distr::SampleString::sample_string(&rand::distr::Alphanumeric, &mut rand::rng(), len)
}

/// Reads a document back into the blocks it announces.
pub trait InjectOperation {
    /// The blocks of `document`, in order.
    fn code_blocks(&self, document: &str) -> Vec<CodeBlock>;

    /// A writer for `block` under the canonical root `root`, with its first action.
    fn writer_for(&self, root: &str, block: &CodeBlock) -> (BlockWriter, WriteAction);
}

/// The injector: parses a document and hands out one writer per block.
#[derive(Debug, Default, Clone, Copy)]
pub struct Injector;

impl InjectOperation for Injector {
    fn code_blocks(&self, document: &str) -> (r: Vec<CodeBlock>)
        ensures
            blocks_view(r@) == parse_document(document@, default_delimiter()),
    {
        parse_blocks(document)
    }

    /// The temporary file's random part is eight alphanumeric characters.
    fn writer_for(&self, root: &str, block: &CodeBlock) -> (r: (BlockWriter, WriteAction))
        ensures
            r.0.wf(),
            r.0.root@ == root@,
            r.0.content@ == block.content@,
            r.0.suffix@.len() == 8,
            forall|i: int| 0 <= i < 8 ==> is_alphanumeric(#[trigger] r.0.suffix@[i]),
            r.0.file_name@ == target_name(block.target_path@),
            r.0.parent@ == parent_dir(root@, block.target_path@),
            string_views(r.0.segments@) == dir_segments(parent_rel(block.target_path@)),
            r.0.next == 0,
            !(r.1 is CreateDir),
            has_file_name(block.target_path@) && !climbs_above(parent_rel(block.target_path@))
                ==> {
                &&& r.0.phase == WritePhase::Resolving
                &&& r.0.pending@ == root@
                &&& r.1 matches WriteAction::Canonicalize(d) && d@ == root@
            },
            has_file_name(block.target_path@) && climbs_above(parent_rel(block.target_path@))
                ==> {
                &&& r.0.phase == WritePhase::Finished
                &&& r.1 matches WriteAction::Finish(WriteOutcome::Escapes(d)) && d@ == parent_dir(
                    root@,
                    block.target_path@,
                )
            },
            !has_file_name(block.target_path@) ==> {
                &&& r.0.phase == WritePhase::Finished
                &&& r.1 matches WriteAction::Finish(WriteOutcome::NoFileName)
            },
    {
        let suffix = random_alphanumeric(8);
        BlockWriter::new(root, block, suffix.as_str())
    }
}

} // verus!
