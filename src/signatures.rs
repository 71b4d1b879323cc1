//! Signature-only rendering of Python source: from its syntax tree, the headers of
//! functions and classes with their docstrings, nested definitions indented.
use vstd::prelude::*;
use crate::docstrings::{indent_docstring, indented_docstring, stripped_quotes, strip_quotes};
use crate::text::{has_prefix_at, chars_of, push_char, same_text};

verus! {

/// One node of a syntax tree. The nodes of a tree stand in one vector in
/// pre-order; `children` holds the indices of a node's children, in order.
#[derive(Debug, Clone)]
pub struct SyntaxNode {
    /// The grammar's name for the node (`function_definition`, `string`, `:` ...).
    pub kind: String,
    /// The source text that the node spans.
    pub text: String,
    /// Whether the node is a named node of the grammar (not punctuation).
    pub named: bool,
    /// Character offset of the node's start in the source.
    pub start: usize,
    /// Character offset just past the node's end in the source.
    pub end: usize,
    pub children: Vec<usize>,
}

pub open spec fn kind_is(t: Seq<SyntaxNode>, i: int, k: Seq<char>) -> bool {
    0 <= i < t.len() && t[i].kind@ == k
}

/// The index of the `k`-th child of node `i`, or -1 when there is none or it does
/// not come after `i` in the tree.
pub open spec fn child(t: Seq<SyntaxNode>, i: int, k: int) -> int {
    if 0 <= i < t.len() && 0 <= k < t[i].children@.len() && i < t[i].children@[k] < t.len() {
        t[i].children@[k] as int
    } else {
        -1
    }
}

pub open spec fn n_children(t: Seq<SyntaxNode>, i: int) -> int {
    if 0 <= i < t.len() {
        t[i].children@.len() as int
    } else {
        0
    }
}

pub open spec fn is_definition(t: Seq<SyntaxNode>, i: int) -> bool {
    kind_is(t, i, "function_definition"@) || kind_is(t, i, "class_definition"@)
}

/// Four spaces per level.
pub open spec fn indent_of(level: nat) -> Seq<char>
    decreases level,
{
    if level == 0 {
        seq![]
    } else {
        indent_of((level - 1) as nat) + seq![' ', ' ', ' ', ' ']
    }
}

/// The first named child of node `i` from the `k`-th on whose kind is `string`.
pub open spec fn string_child(t: Seq<SyntaxNode>, i: int, k: int) -> int
    decreases n_children(t, i) - k,
{
    if k < 0 || k >= n_children(t, i) {
        -1
    } else {
        let c = child(t, i, k);
        if c >= 0 && t[c].named && t[c].kind@ == "string"@ {
            c
        } else {
            string_child(t, i, k + 1)
        }
    }
}

/// The first named child of node `i` from the `k`-th on.
pub open spec fn first_named(t: Seq<SyntaxNode>, i: int, k: int) -> int
    decreases n_children(t, i) - k,
{
    if k < 0 || k >= n_children(t, i) {
        -1
    } else {
        let c = child(t, i, k);
        if c >= 0 && t[c].named {
            c
        } else {
            first_named(t, i, k + 1)
        }
    }
}

/// A string node rendered as a docstring at `indent`.
pub open spec fn docstring_of(t: Seq<SyntaxNode>, s: int, indent: Seq<char>) -> Seq<char> {
    let q = stripped_quotes(t[s].text@);
    indented_docstring(q.0, indent, q.1)
}

/// The docstring of a block: its first statement, when that is a string expression.
pub open spec fn block_docstring(t: Seq<SyntaxNode>, b: int, level: nat) -> Seq<char> {
    let f = first_named(t, b, 0);
    if f >= 0 && t[f].kind@ == "expression_statement"@ {
        let s = string_child(t, f, 0);
        if s >= 0 {
            docstring_of(t, s, indent_of(level))
        } else {
            seq![]
        }
    } else {
        seq![]
    }
}

/// The first child of node `i` from the `k`-th on whose kind is `kind`, or -1.
pub open spec fn child_of_kind(t: Seq<SyntaxNode>, i: int, k: int, kind: Seq<char>) -> int
    decreases n_children(t, i) - k,
{
    if k < 0 || k >= n_children(t, i) {
        -1
    } else {
        let c = child(t, i, k);
        if c >= 0 && t[c].kind@ == kind {
            c
        } else {
            child_of_kind(t, i, k + 1, kind)
        }
    }
}

/// The source of definition `i` from its first token up to and including the
/// colon that opens its body: keywords, name, type parameters, bases or
/// parameters and return annotation, as written.
pub open spec fn header_source(t: Seq<SyntaxNode>, i: int) -> Seq<char> {
    let c = child_of_kind(t, i, 0, ":"@);
    if c >= 0 && t[i].start <= t[c].end && t[c].end - t[i].start <= t[i].text@.len() {
        t[i].text@.take(t[c].end - t[i].start)
    } else {
        seq![]
    }
}

/// The header of definition `i`, a line break, then the docstring of its body.
pub open spec fn header_from(t: Seq<SyntaxNode>, i: int, level: nat) -> Seq<char> {
    let b = child_of_kind(t, i, 0, "block"@);
    header_source(t, i) + seq!['\n'] + if b >= 0 {
        block_docstring(t, b, level + 1)
    } else {
        seq![]
    }
}

/// The rendering of node `i` at nesting `level`: a definition's header followed by
/// its nested definitions; a decorated definition's decorators, then the
/// definition; nothing for any other node.
pub open spec fn defs_text(t: Seq<SyntaxNode>, i: int, level: nat) -> Seq<char>
    decreases t.len() - i, 3int, 0int,
{
    if i < 0 || i >= t.len() {
        seq![]
    } else if is_definition(t, i) {
        indent_of(level) + header_from(t, i, level) + seq!['\n'] + body_defs(
            t,
            i,
            0,
            level,
        )
    } else if kind_is(t, i, "decorated_definition"@) {
        decorated(t, i, 0, level)
    } else {
        seq![]
    }
}

/// The decorators and the definition of decorated definition `i`, from its `k`-th
/// child on.
pub open spec fn decorated(t: Seq<SyntaxNode>, i: int, k: int, level: nat) -> Seq<char>
    decreases t.len() - i, 2int, n_children(t, i) - k,
{
    if i < 0 || i >= t.len() || k < 0 || k >= n_children(t, i) {
        seq![]
    } else {
        let c = child(t, i, k);
        if c < 0 {
            decorated(t, i, k + 1, level)
        } else if t[c].kind@ == "decorator"@ {
            indent_of(level) + t[c].text@ + seq!['\n'] + decorated(t, i, k + 1, level)
        } else {
            defs_text(t, c, level) + decorated(t, i, k + 1, level)
        }
    }
}

/// The nested definitions in the blocks among the children of `i` from the `k`-th
/// on.
pub open spec fn body_defs(t: Seq<SyntaxNode>, i: int, k: int, level: nat) -> Seq<char>
    decreases t.len() - i, 2int, n_children(t, i) - k,
{
    if i < 0 || i >= t.len() || k < 0 || k >= n_children(t, i) {
        seq![]
    } else {
        let c = child(t, i, k);
        if c >= 0 && t[c].kind@ == "block"@ {
            stmt_defs(t, c, 0, level + 1) + body_defs(t, i, k + 1, level)
        } else {
            body_defs(t, i, k + 1, level)
        }
    }
}

/// The renderings of the statements of node `b` from the `k`-th on, each that is
/// not empty followed by a line break.
pub open spec fn stmt_defs(t: Seq<SyntaxNode>, b: int, k: int, level: nat) -> Seq<char>
    decreases t.len() - b, 1int, n_children(t, b) - k,
{
    if b < 0 || b >= t.len() || k < 0 || k >= n_children(t, b) {
        seq![]
    } else {
        let c = child(t, b, k);
        let s = if c > b {
            defs_text(t, c, level)
        } else {
            seq![]
        };
        if s.len() > 0 {
            s + seq!['\n'] + stmt_defs(t, b, k + 1, level)
        } else {
            stmt_defs(t, b, k + 1, level)
        }
    }
}

/// The module docstring, searched among the root's children from the `k`-th on: the
/// first statement, when it is a string expression; only comments and line breaks
/// may stand before it.
pub open spec fn module_docstring(t: Seq<SyntaxNode>, k: int) -> Seq<char>
    decreases n_children(t, 0) - k,
{
    if k < 0 || k >= n_children(t, 0) {
        seq![]
    } else {
        let c = child(t, 0, k);
        if c < 0 {
            module_docstring(t, k + 1)
        } else if t[c].kind@ == "expression_statement"@ {
            let s = string_child(t, c, 0);
            if s >= 0 {
                docstring_of(t, s, seq![])
            } else {
                seq![]
            }
        } else if "comment"@.is_prefix_of(t[c].kind@) || "newline"@.is_prefix_of(t[c].kind@) {
            module_docstring(t, k + 1)
        } else {
            seq![]
        }
    }
}

/// The signature-only rendering of a module whose tree is `t` (root at index 0).
pub open spec fn signatures_of(t: Seq<SyntaxNode>) -> Seq<char> {
    let md = module_docstring(t, 0);
    (if md.len() > 0 {
        md + seq!['\n']
    } else {
        seq![]
    }) + stmt_defs(t, 0, 0, 0)
}

/// No node of `t` is a function, class or decorated definition.
pub open spec fn no_definitions(t: Seq<SyntaxNode>) -> bool {
    forall|i: int|
        0 <= i < t.len() ==> !#[trigger] is_definition(t, i) && !kind_is(t, i, "decorated_definition"@)
}

proof fn lemma_stmt_defs_empty(t: Seq<SyntaxNode>, b: int, k: int, level: nat)
    requires
        no_definitions(t),
    ensures
        stmt_defs(t, b, k, level).len() == 0,
    decreases n_children(t, b) - k,
{
    if 0 <= b < t.len() && 0 <= k < n_children(t, b) {
        let c = child(t, b, k);
        if c > b {
            assert(!is_definition(t, c) && !kind_is(t, c, "decorated_definition"@));
            assert(defs_text(t, c, level).len() == 0);
        }
        lemma_stmt_defs_empty(t, b, k + 1, level);
    }
}

/// A module with no function or class definition and no module docstring has an
/// empty signature-only rendering.
pub proof fn law_no_definitions_no_signatures(t: Seq<SyntaxNode>)
    requires
        t.len() > 0,
        module_docstring(t, 0).len() == 0,
        no_definitions(t),
    ensures
        signatures_of(t).len() == 0,
{
    lemma_stmt_defs_empty(t, 0, 0, 0);
    assert(signatures_of(t) =~= stmt_defs(t, 0, 0, 0));
}

fn kind_eq(t: &Vec<SyntaxNode>, i: usize, k: &str) -> (r: bool)
    requires
        i < t@.len(),
    ensures
        r == (t@[i as int].kind@ == k@),
{
    same_text(t[i].kind.as_str(), k)
}

fn child_exec(t: &Vec<SyntaxNode>, i: usize, k: usize) -> (r: Option<usize>)
    requires
        i < t@.len(),
    ensures
        r is Some ==> r->0 == child(t@, i as int, k as int) && r->0 < t@.len(),
        r is None ==> child(t@, i as int, k as int) == -1,
{
    if k < t[i].children.len() {
        let c = t[i].children[k];
        if i < c && c < t.len() {
            return Some(c);
        }
    }
    None
}

fn indent_exec(level: usize) -> (r: String)
    ensures
        r@ == indent_of(level as nat),
{
    let mut r = String::new();
    let mut j: usize = 0;
    while j < level
        invariant
            j <= level,
            r@ == indent_of(j as nat),
        decreases level - j,
    {
        r.append("    ");
        proof {
            reveal_strlit("    ");
            assert(r@ =~= indent_of((j + 1) as nat));
        }
        j = j + 1;
    }
    r
}

fn string_child_exec(t: &Vec<SyntaxNode>, i: usize) -> (r: Option<usize>)
    requires
        i < t@.len(),
    ensures
        r is Some ==> r->0 < t@.len() && r->0 == string_child(t@, i as int, 0),
        r is None ==> string_child(t@, i as int, 0) == -1,
{
    let n = t[i].children.len();
    let mut k = n;
    let mut found: Option<usize> = None;
    // Scan from the end, so that `found` is the first match from `k` on.
    while k > 0
        invariant
            k <= n == n_children(t@, i as int),
            i < t@.len(),
            found is Some ==> found->0 < t@.len() && found->0 == string_child(t@, i as int, k as int),
            found is None ==> string_child(t@, i as int, k as int) == -1,
        decreases k,
    {
        k = k - 1;
        match child_exec(t, i, k) {
            Some(c) => {
                if t[c].named && kind_eq(t, c, "string") {
                    found = Some(c);
                }
            },
            None => {},
        }
    }
    found
}

fn first_named_exec(t: &Vec<SyntaxNode>, i: usize) -> (r: Option<usize>)
    requires
        i < t@.len(),
    ensures
        r is Some ==> r->0 < t@.len() && r->0 == first_named(t@, i as int, 0),
        r is None ==> first_named(t@, i as int, 0) == -1,
{
    let n = t[i].children.len();
    let mut k = n;
    let mut found: Option<usize> = None;
    while k > 0
        invariant
            k <= n == n_children(t@, i as int),
            i < t@.len(),
            found is Some ==> found->0 < t@.len() && found->0 == first_named(t@, i as int, k as int),
            found is None ==> first_named(t@, i as int, k as int) == -1,
        decreases k,
    {
        k = k - 1;
        match child_exec(t, i, k) {
            Some(c) => {
                if t[c].named {
                    found = Some(c);
                }
            },
            None => {},
        }
    }
    found
}

fn docstring_exec(t: &Vec<SyntaxNode>, s: usize, indent: &str) -> (r: String)
    requires
        s < t@.len(),
    ensures
        r@ == docstring_of(t@, s as int, indent@),
{
    let (inner, quote) = strip_quotes(t[s].text.as_str());
    indent_docstring(inner, indent, quote)
}

fn block_docstring_exec(t: &Vec<SyntaxNode>, b: usize, level: usize) -> (r: String)
    requires
        b < t@.len(),
    ensures
        r@ == block_docstring(t@, b as int, level as nat),
{
    match first_named_exec(t, b) {
        Some(f) => {
            if kind_eq(t, f, "expression_statement") {
                match string_child_exec(t, f) {
                    Some(s) => {
                        let ind = indent_exec(level);
                        docstring_exec(t, s, ind.as_str())
                    },
                    None => String::new(),
                }
            } else {
                String::new()
            }
        },
        None => String::new(),
    }
}

fn child_of_kind_exec(t: &Vec<SyntaxNode>, i: usize, kind: &str) -> (r: Option<usize>)
    requires
        i < t@.len(),
    ensures
        r is Some ==> r->0 < t@.len() && r->0 == child_of_kind(t@, i as int, 0, kind@),
        r is None ==> child_of_kind(t@, i as int, 0, kind@) == -1,
{
    let n = t[i].children.len();
    let mut k = n;
    let mut found: Option<usize> = None;
    while k > 0
        invariant
            k <= n == n_children(t@, i as int),
            i < t@.len(),
            found is Some ==> found->0 < t@.len() && found->0 == child_of_kind(
                t@,
                i as int,
                k as int,
                kind@,
            ),
            found is None ==> child_of_kind(t@, i as int, k as int, kind@) == -1,
        decreases k,
    {
        k = k - 1;
        match child_exec(t, i, k) {
            Some(c) => {
                if kind_eq(t, c, kind) {
                    found = Some(c);
                }
            },
            None => {},
        }
    }
    found
}

fn header_exec(t: &Vec<SyntaxNode>, i: usize, level: usize) -> (r: String)
    requires
        i < t@.len(),
        level < usize::MAX,
    ensures
        r@ == header_from(t@, i as int, level as nat),
{
    let mut out = String::new();
    match child_of_kind_exec(t, i, ":") {
        Some(c) => {
            let s0 = t[i].start;
            let e = t[c].end;
            if s0 <= e && e - s0 <= t[i].text.as_str().unicode_len() {
                out.append(t[i].text.as_str().substring_char(0, e - s0));
            }
        },
        None => {},
    }
    assert(out@ =~= header_source(t@, i as int));
    push_char(&mut out, '\n');
    match child_of_kind_exec(t, i, "block") {
        Some(b) => {
            let d = block_docstring_exec(t, b, level + 1);
            out.append(d.as_str());
        },
        None => {},
    }
    assert(out@ =~= header_from(t@, i as int, level as nat));
    out
}

/// The rendering of node `i` at nesting `level` (see [`defs_text`]).
pub fn defs_exec(t: &Vec<SyntaxNode>, i: usize, level: usize) -> (r: String)
    requires
        i < t@.len(),
        level <= i,
    ensures
        r@ == defs_text(t@, i as int, level as nat),
    decreases t@.len() - i, 3int, 0int,
{
    let tl = t.len();
    assert(level < usize::MAX);
    if kind_eq(t, i, "function_definition") || kind_eq(t, i, "class_definition") {
        let mut r = indent_exec(level);
        let h = header_exec(t, i, level);
        r.append(h.as_str());
        push_char(&mut r, '\n');
        let b = body_defs_exec(t, i, 0, level);
        r.append(b.as_str());
        assert(r@ =~= defs_text(t@, i as int, level as nat));
        r
    } else if kind_eq(t, i, "decorated_definition") {
        decorated_exec(t, i, 0, level)
    } else {
        String::new()
    }
}

fn decorated_exec(t: &Vec<SyntaxNode>, i: usize, k: usize, level: usize) -> (r: String)
    requires
        i < t@.len(),
        level <= i,
    ensures
        r@ == decorated(t@, i as int, k as int, level as nat),
    decreases t@.len() - i, 2int, n_children(t@, i as int) - k,
{
    if k >= t[i].children.len() {
        return String::new();
    }
    let rest = decorated_exec(t, i, k + 1, level);
    match child_exec(t, i, k) {
        Some(c) => {
            if kind_eq(t, c, "decorator") {
                let mut r = indent_exec(level);
                r.append(t[c].text.as_str());
                push_char(&mut r, '\n');
                r.append(rest.as_str());
                assert(r@ =~= decorated(t@, i as int, k as int, level as nat));
                r
            } else {
                let mut r = defs_exec(t, c, level);
                r.append(rest.as_str());
                r
            }
        },
        None => rest,
    }
}

fn body_defs_exec(t: &Vec<SyntaxNode>, i: usize, k: usize, level: usize) -> (r: String)
    requires
        i < t@.len(),
        level <= i,
    ensures
        r@ == body_defs(t@, i as int, k as int, level as nat),
    decreases t@.len() - i, 2int, n_children(t@, i as int) - k,
{
    if k >= t[i].children.len() {
        return String::new();
    }
    let rest = body_defs_exec(t, i, k + 1, level);
    match child_exec(t, i, k) {
        Some(c) => {
            if kind_eq(t, c, "block") {
                let mut r = stmt_defs_exec(t, c, 0, level + 1);
                r.append(rest.as_str());
                r
            } else {
                rest
            }
        },
        None => rest,
    }
}

fn stmt_defs_exec(t: &Vec<SyntaxNode>, b: usize, k: usize, level: usize) -> (r: String)
    requires
        b < t@.len(),
        level <= b,
    ensures
        r@ == stmt_defs(t@, b as int, k as int, level as nat),
    decreases t@.len() - b, 1int, n_children(t@, b as int) - k,
{
    if k >= t[b].children.len() {
        return String::new();
    }
    let rest = stmt_defs_exec(t, b, k + 1, level);
    match child_exec(t, b, k) {
        Some(c) => {
            let s = defs_exec(t, c, level);
            if s.as_str().unicode_len() > 0 {
                let mut r = s;
                push_char(&mut r, '\n');
                r.append(rest.as_str());
                assert(r@ =~= stmt_defs(t@, b as int, k as int, level as nat));
                r
            } else {
                rest
            }
        },
        None => {
            assert(defs_text(t@, -1, level as nat) == Seq::<char>::empty());
            rest
        },
    }
}

fn module_docstring_exec(t: &Vec<SyntaxNode>) -> (r: String)
    requires
        t@.len() > 0,
    ensures
        r@ == module_docstring(t@, 0),
{
    let n = t[0].children.len();
    let mut k: usize = 0;
    let comment = chars_of("comment");
    let newline = chars_of("newline");
    while k < n
        invariant
            k <= n == n_children(t@, 0),
            t@.len() > 0,
            comment@ == "comment"@,
            newline@ == "newline"@,
            module_docstring(t@, k as int) == module_docstring(t@, 0),
        decreases n - k,
    {
        match child_exec(t, 0, k) {
            Some(c) => {
                if kind_eq(t, c, "expression_statement") {
                    match string_child_exec(t, c) {
                        Some(s) => {
                            let r = docstring_exec(t, s, "");
                            proof {
                                reveal_strlit("");
                                assert(""@ =~= Seq::<char>::empty());
                            }
                            return r;
                        },
                        None => {
                            return String::new();
                        },
                    }
                } else {
                    let kv = chars_of(t[c].kind.as_str());
                    let kn = kv.len();
                    assert(kv@.subrange(0, kn as int) =~= kv@);
                    if !has_prefix_at(&kv, 0, kn, &comment) && !has_prefix_at(&kv, 0, kn, &newline) {
                        return String::new();
                    }
                }
            },
            None => {},
        }
        k = k + 1;
    }
    String::new()
}

/// Extracts, in source order, the function and class signatures of a module, each
/// with its docstring, nested definitions indented, and the module docstring first.
/// `tree` holds the module's syntax tree, root first.
pub fn extract_python_signatures(tree: &Vec<SyntaxNode>) -> (r: String)
    ensures
        tree@.len() > 0 ==> r@ == signatures_of(tree@),
        tree@.len() == 0 ==> r@.len() == 0,
{
    if tree.len() == 0 {
        return String::new();
    }
    let md = module_docstring_exec(tree);
    let mut r = String::new();
    if md.as_str().unicode_len() > 0 {
        r.append(md.as_str());
        push_char(&mut r, '\n');
    }
    let defs = stmt_defs_exec(tree, 0, 0, 0);
    r.append(defs.as_str());
    assert(r@ =~= signatures_of(tree@));
    r
}

} // verus!
