//! The block parser: a two-state machine that reads a text document line by line
//! and collects (target path, content) pairs announced in several conventions.
use vstd::prelude::*;
use vstd::string::*;
use crate::text::{
    lemma_trim_empty,
    lemma_newline_index_bound, no_crlf, newline_index, drop_cr,
    chars_of, contains_at, has_prefix_at, has_suffix_at, has_ws, has_ws_at, is_whitespace_char,
    is_ws, lines, lines_of, push_char, string_views, skip_ws_backward, skip_ws_forward, string_of_range, trim,
    trim_bounds, trim_end, trim_start, utf8_len, utf8_len_exceeds,
};

verus! {

/// Where the parser stands between two lines.
#[derive(Debug, PartialEq, Eq, Structural, Clone, Copy)]
pub enum ParserState {
    ExpectingPath,
    InCodeBlock,
}

/// A parsed block: the path as announced in the text and the fenced content.
#[derive(Debug, Clone)]
pub struct CodeBlock {
    pub target_path: String,
    pub content: String,
}

impl View for CodeBlock {
    type V = (Seq<char>, Seq<char>);

    open spec fn view(&self) -> (Seq<char>, Seq<char>) {
        (self.target_path@, self.content@)
    }
}

/// The default fence delimiter, three backticks.
pub open spec fn default_delimiter() -> Seq<char> {
    seq!['`', '`', '`']
}

pub open spec fn heading_open() -> Seq<char> {
    seq!['#', '#', '#', ' ', '`']
}

pub open spec fn bold_open() -> Seq<char> {
    seq!['*', '*', '`']
}

pub open spec fn bold_close() -> Seq<char> {
    seq!['`', '*', '*']
}

pub open spec fn backtick() -> Seq<char> {
    seq!['`']
}

/// A fence line: after leading whitespace it begins with the delimiter.
pub open spec fn is_fence(line: Seq<char>, delim: Seq<char>) -> bool {
    delim.is_prefix_of(trim_start(line))
}

/// One of the three quoted announcement forms: `` ### `p` ``, `` **`p`** `` or a
/// backtick-quoted token longer than three bytes.
pub open spec fn is_quoted_path_line(line: Seq<char>) -> bool {
    let t = trim_start(line);
    let e = trim_end(line);
    (heading_open().is_prefix_of(t) && backtick().is_suffix_of(e)) || (bold_open().is_prefix_of(t)
        && bold_close().is_suffix_of(e)) || (backtick().is_prefix_of(t) && backtick().is_suffix_of(
        e,
    ) && utf8_len(line) > 3)
}

/// The text between a convention's own markers, from the trimmed line; the trimmed
/// line itself when no convention applies.
pub open spec fn extracted_path(input: Seq<char>) -> Seq<char> {
    let t = trim(input);
    if heading_open().is_prefix_of(t) && backtick().is_suffix_of(t) {
        if t.len() >= 6 {
            t.subrange(5, t.len() - 1)
        } else {
            seq![]
        }
    } else if bold_open().is_prefix_of(t) && bold_close().is_suffix_of(t) {
        if t.len() >= 6 {
            t.subrange(3, t.len() - 3)
        } else {
            seq![]
        }
    } else if backtick().is_prefix_of(t) && backtick().is_suffix_of(t) {
        if t.len() >= 2 {
            t.subrange(1, t.len() - 1)
        } else {
            seq![]
        }
    } else {
        t
    }
}

/// Index where the last whitespace-separated token of `s` starts (0 when `s` holds
/// no whitespace).
pub open spec fn token_start(s: Seq<char>) -> nat
    decreases s.len(),
{
    if s.len() == 0 {
        0
    } else if is_ws(s.last()) {
        s.len()
    } else {
        token_start(s.drop_last())
    }
}

/// The path announced on a fence line itself: the last token after the delimiter
/// when there are two or more, the single token when it holds `/` or `.`.
pub open spec fn fence_path(line: Seq<char>, delim: Seq<char>) -> Option<Seq<char>> {
    let t = trim_start(line);
    if !delim.is_prefix_of(t) {
        None
    } else {
        let rem = trim(t.skip(delim.len() as int));
        if rem.len() == 0 {
            None
        } else if token_start(rem) == 0 {
            if rem.contains('/') || rem.contains('.') {
                Some(rem)
            } else {
                None
            }
        } else {
            Some(rem.skip(token_start(rem) as int))
        }
    }
}

/// A bare inline announcement: a non-blank line without inner whitespace that does
/// not start with `#` or with the delimiter.
pub open spec fn is_bare_path_line(line: Seq<char>, delim: Seq<char>) -> bool {
    let t = trim(line);
    t.len() > 0 && t[0] != '#' && !delim.is_prefix_of(t) && !has_ws(t)
}

/// The abstract state of the parser.
pub struct ParseModel {
    pub in_block: bool,
    pub pending: Option<Seq<char>>,
    pub buffer: Seq<char>,
    pub blocks: Seq<(Seq<char>, Seq<char>)>,
}

pub open spec fn initial_model() -> ParseModel {
    ParseModel { in_block: false, pending: None, buffer: seq![], blocks: seq![] }
}

/// Whether whitespace alone makes up `s`.
pub open spec fn is_blank(s: Seq<char>) -> bool {
    trim(s).len() == 0
}

/// Closing a block: it is kept when a path is pending and the content is not blank.
pub open spec fn close_block(m: ParseModel) -> ParseModel {
    ParseModel {
        in_block: false,
        pending: None,
        buffer: seq![],
        blocks: if m.pending is Some && !is_blank(m.buffer) {
            m.blocks.push((m.pending->0, trim_end(m.buffer)))
        } else {
            m.blocks
        },
    }
}

/// The transition on one line.
pub open spec fn step(m: ParseModel, line: Seq<char>, delim: Seq<char>) -> ParseModel {
    if !m.in_block {
        if is_fence(line, delim) {
            ParseModel {
                in_block: true,
                pending: if fence_path(line, delim) is Some {
                    fence_path(line, delim)
                } else {
                    m.pending
                },
                buffer: seq![],
                blocks: m.blocks,
            }
        } else if is_quoted_path_line(line) {
            let p = extracted_path(line);
            ParseModel {
                pending: if is_blank(p) {
                    None
                } else {
                    Some(p)
                },
                ..m
            }
        } else if is_bare_path_line(line, delim) {
            ParseModel { pending: Some(trim(line)), ..m }
        } else {
            m
        }
    } else {
        if is_fence(line, delim) {
            close_block(m)
        } else {
            ParseModel { buffer: m.buffer + line + seq!['\n'], ..m }
        }
    }
}

/// The state after the lines `ls`, one transition each, in order.
pub open spec fn run(m: ParseModel, ls: Seq<Seq<char>>, delim: Seq<char>) -> ParseModel
    decreases ls.len(),
{
    if ls.len() == 0 {
        m
    } else {
        run(step(m, ls[0], delim), ls.drop_first(), delim)
    }
}

/// End of input: a block still open is closed as by a fence.
pub open spec fn finish(m: ParseModel) -> Seq<(Seq<char>, Seq<char>)> {
    if m.in_block {
        close_block(m).blocks
    } else {
        m.blocks
    }
}

/// The blocks that a document yields.
pub open spec fn parse_document(content: Seq<char>, delim: Seq<char>) -> Seq<(Seq<char>, Seq<char>)> {
    finish(run(initial_model(), lines(content), delim))
}

pub open spec fn blocks_view(v: Seq<CodeBlock>) -> Seq<(Seq<char>, Seq<char>)> {
    v.map_values(|b: CodeBlock| b@)
}

pub open spec fn opt_view(r: Option<&str>) -> Option<Seq<char>> {
    match r {
        Some(p) => Some(p@),
        None => None,
    }
}

pub proof fn lemma_run_append(m: ParseModel, a: Seq<Seq<char>>, b: Seq<Seq<char>>, delim: Seq<char>)
    ensures
        run(m, a + b, delim) == run(run(m, a, delim), b, delim),
    decreases a.len(),
{
    if a.len() == 0 {
        assert(a + b =~= b);
    } else {
        assert((a + b).drop_first() =~= a.drop_first() + b);
        lemma_run_append(step(m, a[0], delim), a.drop_first(), b, delim);
    }
}

/// Inside a block, lines that are not fences are gathered into the content, each
/// with its line break.
pub proof fn lemma_run_block_body(m: ParseModel, s: Seq<char>, d: Seq<char>)
    requires
        m.in_block,
        s.len() == 0 || s.last() == '\n',
        no_crlf(s),
        forall|k: int| 0 <= k < lines(s).len() ==> !is_fence(#[trigger] lines(s)[k], d),
    ensures
        run(m, lines(s), d) == (ParseModel { buffer: m.buffer + s, ..m }),
    decreases s.len(),
{
    if s.len() == 0 {
        assert(m.buffer + s =~= m.buffer);
        assert(lines(s) =~= seq![]);
    } else {
        lemma_newline_index_bound(s);
        if newline_index(s) == s.len() {
            assert(s[s.len() - 1] != '\n');
        }
        let i = newline_index(s) as int;
        let x = s.take(i);
        let r = s.skip(i + 1);
        if i > 0 {
            assert(s[i - 1] != '\r');
        }
        assert(drop_cr(x) == x);
        assert(lines(s) == seq![x] + lines(r));
        assert(lines(s)[0] == x);
        assert(lines(s).drop_first() =~= lines(r));
        let m1 = step(m, x, d);
        assert(m1 == (ParseModel { buffer: m.buffer + x + seq!['\n'], ..m }));
        assert forall|k: int| 0 <= k < lines(r).len() implies !is_fence(#[trigger] lines(r)[k], d) by {
            assert(lines(r)[k] == lines(s)[k + 1]);
        }
        if r.len() > 0 {
            assert(r.last() == s.last());
        }
        assert forall|j: int| 0 < j < r.len() && #[trigger] r[j] == '\n' implies r[j - 1] != '\r' by {
            assert(r[j] == s[i + 1 + j]);
            assert(r[j - 1] == s[i + j]);
        }
        lemma_run_block_body(m1, r, d);
        assert(m.buffer + x + seq!['\n'] + r =~= m.buffer + s);
    }
}

/// Each block's content is not empty and does not end in whitespace.
pub open spec fn contents_trimmed(blocks: Seq<(Seq<char>, Seq<char>)>) -> bool {
    forall|i: int|
        0 <= i < blocks.len() ==> (#[trigger] blocks[i]).1.len() > 0 && !is_ws(blocks[i].1.last())
}

proof fn lemma_trim_end_shape(s: Seq<char>)
    ensures
        trim_end(s).len() > 0 ==> !is_ws(trim_end(s).last()),
        !is_blank(s) ==> trim_end(s).len() > 0,
    decreases s.len(),
{
    lemma_trim_empty(s);
    if s.len() > 0 && is_ws(s.last()) {
        lemma_trim_end_shape(s.drop_last());
        lemma_trim_empty(s.drop_last());
        if !is_blank(s) {
            let j = choose|j: int| 0 <= j < s.len() && !is_ws(#[trigger] s[j]);
            assert(s.drop_last()[j] == s[j]);
        }
    } else if s.len() > 0 {
        if !is_blank(s) {
            assert(trim_end(s) == s);
        }
    }
}

proof fn lemma_step_keeps_contents(m: ParseModel, line: Seq<char>, d: Seq<char>)
    requires
        contents_trimmed(m.blocks),
    ensures
        contents_trimmed(step(m, line, d).blocks),
{
    let c = close_block(m);
    if m.pending is Some && !is_blank(m.buffer) {
        lemma_trim_end_shape(m.buffer);
        assert forall|i: int| 0 <= i < c.blocks.len() implies (#[trigger] c.blocks[i]).1.len() > 0
            && !is_ws(c.blocks[i].1.last()) by {
            if i < m.blocks.len() {
                assert(c.blocks[i] == m.blocks[i]);
            }
        }
    }
}

proof fn lemma_run_keeps_contents(m: ParseModel, ls: Seq<Seq<char>>, d: Seq<char>)
    requires
        contents_trimmed(m.blocks),
    ensures
        contents_trimmed(run(m, ls, d).blocks),
    decreases ls.len(),
{
    if ls.len() > 0 {
        lemma_step_keeps_contents(m, ls[0], d);
        lemma_run_keeps_contents(step(m, ls[0], d), ls.drop_first(), d);
    }
}

/// Every block that a document yields has content that is not empty and does not
/// end in whitespace: trailing blank lines never reach a file.
pub proof fn law_block_contents_trimmed(content: Seq<char>, d: Seq<char>)
    ensures
        contents_trimmed(parse_document(content, d)),
{
    let m = run(initial_model(), lines(content), d);
    lemma_run_keeps_contents(initial_model(), lines(content), d);
    if m.in_block {
        lemma_step_keeps_contents(m, d, d);
        let c = close_block(m);
        if m.pending is Some && !is_blank(m.buffer) {
            lemma_trim_end_shape(m.buffer);
            assert forall|i: int| 0 <= i < c.blocks.len() implies (#[trigger] c.blocks[i]).1.len()
                > 0 && !is_ws(c.blocks[i].1.last()) by {
                if i < m.blocks.len() {
                    assert(c.blocks[i] == m.blocks[i]);
                }
            }
        }
    }
}

/// Lines that are not fences, read outside a block, open none and add no block.
pub proof fn lemma_run_outside(m: ParseModel, ls: Seq<Seq<char>>, d: Seq<char>)
    requires
        !m.in_block,
        forall|k: int| 0 <= k < ls.len() ==> !is_fence(#[trigger] ls[k], d),
    ensures
        !run(m, ls, d).in_block,
        run(m, ls, d).blocks == m.blocks,
    decreases ls.len(),
{
    if ls.len() > 0 {
        assert(!is_fence(ls[0], d));
        assert forall|k: int| 0 <= k < ls.drop_first().len() implies !is_fence(
            #[trigger] ls.drop_first()[k],
            d,
        ) by {
            assert(ls.drop_first()[k] == ls[k + 1]);
        }
        lemma_run_outside(step(m, ls[0], d), ls.drop_first(), d);
    }
}

/// A text that does not start with whitespace is its own `trim_start`.
pub proof fn lemma_trim_start_id(s: Seq<char>)
    requires
        s.len() == 0 || !is_ws(s[0]),
    ensures
        trim_start(s) == s,
{
}

/// A text with no whitespace is its own trim, and has a single token.
pub proof fn lemma_no_ws_trim(s: Seq<char>)
    requires
        !has_ws(s),
    ensures
        trim(s) == s,
        token_start(s) == 0,
{
    if s.len() > 0 {
        assert(!is_ws(s[0]));
        assert(!is_ws(s.last()));
    }
    lemma_token_start(s, 0);
}

fn token_start_exec(v: &Vec<char>, lo: usize, hi: usize) -> (k: usize)
    requires
        lo <= hi <= v@.len(),
    ensures
        lo <= k <= hi,
        k - lo == token_start(v@.subrange(lo as int, hi as int)),
{
    let mut j = hi;
    while j > lo && !is_whitespace_char(v[j - 1])
        invariant
            lo <= j <= hi <= v@.len(),
            forall|i: int| j <= i < hi ==> !is_ws(#[trigger] v@[i]),
        decreases j - lo,
    {
        j = j - 1;
    }
    proof {
        lemma_token_start(v@.subrange(lo as int, hi as int), j - lo);
    }
    j
}

proof fn lemma_token_start(s: Seq<char>, j: int)
    requires
        0 <= j <= s.len(),
        forall|i: int| j <= i < s.len() ==> !is_ws(#[trigger] s[i]),
        j == 0 || is_ws(s[j - 1]),
    ensures
        token_start(s) == j,
    decreases s.len(),
{
    if s.len() == 0 {
    } else if is_ws(s.last()) {
        assert(j == s.len());
    } else {
        if j == s.len() {
            assert(false) by {
                assert(!is_ws(s[s.len() - 1]) || j == 0);
            }
        }
        let t = s.drop_last();
        assert forall|i: int| j <= i < t.len() implies !is_ws(#[trigger] t[i]) by {
            assert(t[i] == s[i]);
        }
        if j > 0 {
            assert(t[j - 1] == s[j - 1]);
        }
        lemma_token_start(t, j);
    }
}

/// Path on a fence line, over the characters `v` of `line`.
fn fence_path_chars<'a>(line: &'a str, v: &Vec<char>, d: &Vec<char>) -> (r: Option<&'a str>)
    requires
        v@ == line@,
    ensures
        opt_view(r) == fence_path(line@, d@),
{
    let n = v.len();
    let a = skip_ws_forward(v, 0, n);
    assert(v@.subrange(0, n as int) =~= v@);
    if !has_prefix_at(v, a, n, d) {
        return None;
    }
    let ghost t = v@.subrange(a as int, n as int);
    assert(t.skip(d@.len() as int) =~= v@.subrange(a + d@.len(), n as int));
    let (b, e) = trim_bounds(v, a + d.len(), n);
    if b == e {
        return None;
    }
    let k = token_start_exec(v, b, e);
    if k == b {
        if contains_at(v, b, e, '/') || contains_at(v, b, e, '.') {
            Some(line.substring_char(b, e))
        } else {
            None
        }
    } else {
        let ghost rem = v@.subrange(b as int, e as int);
        assert(rem.skip(k - b) =~= v@.subrange(k as int, e as int));
        Some(line.substring_char(k, e))
    }
}

/// Attempts to take a file path from a line that begins with the delimiter:
/// `` ```src/lib.rs `` or `` ```rust src/lib.rs ``.
pub fn extract_path_from_fence<'a>(line: &'a str, delimiter: &str) -> (r: Option<&'a str>)
    ensures
        opt_view(r) == fence_path(line@, delimiter@),
{
    let v = chars_of(line);
    let d = chars_of(delimiter);
    fence_path_chars(line, &v, &d)
}

/// The path from a line such as `` ### `path` `` or `` **`path`** ``.
pub fn extract_path(input: &str) -> (r: &str)
    ensures
        r@ == extracted_path(input@),
{
    let v = chars_of(input);
    let n = v.len();
    assert(v@.subrange(0, n as int) =~= v@);
    let (a, b) = trim_bounds(&v, 0, n);
    let heading = chars_of("### `");
    let bold_o = chars_of("**`");
    let bold_c = chars_of("`**");
    let tick = chars_of("`");
    proof {
        reveal_strlit("### `");
        reveal_strlit("**`");
        reveal_strlit("`**");
        reveal_strlit("`");
        assert(heading@ =~= heading_open());
        assert(bold_o@ =~= bold_open());
        assert(bold_c@ =~= bold_close());
        assert(tick@ =~= backtick());
    }
    let ghost t = v@.subrange(a as int, b as int);
    if has_prefix_at(&v, a, b, &heading) && has_suffix_at(&v, a, b, &tick) {
        if b - a >= 6 {
            assert(t.subrange(5, t.len() - 1) =~= v@.subrange(a + 5, b - 1));
            input.substring_char(a + 5, b - 1)
        } else {
            input.substring_char(a, a)
        }
    } else if has_prefix_at(&v, a, b, &bold_o) && has_suffix_at(&v, a, b, &bold_c) {
        if b - a >= 6 {
            assert(t.subrange(3, t.len() - 3) =~= v@.subrange(a + 3, b - 3));
            input.substring_char(a + 3, b - 3)
        } else {
            input.substring_char(a, a)
        }
    } else if has_prefix_at(&v, a, b, &tick) && has_suffix_at(&v, a, b, &tick) {
        if b - a >= 2 {
            assert(t.subrange(1, t.len() - 1) =~= v@.subrange(a + 1, b - 1));
            input.substring_char(a + 1, b - 1)
        } else {
            input.substring_char(a, a)
        }
    } else {
        input.substring_char(a, b)
    }
}

fn quoted_path_line_chars(line: &str, v: &Vec<char>) -> (r: bool)
    requires
        v@ == line@,
    ensures
        r == is_quoted_path_line(line@),
{
    let n = v.len();
    assert(v@.subrange(0, n as int) =~= v@);
    let a = skip_ws_forward(v, 0, n);
    let e = skip_ws_backward(v, 0, n);
    let heading = chars_of("### `");
    let bold_o = chars_of("**`");
    let bold_c = chars_of("`**");
    let tick = chars_of("`");
    proof {
        reveal_strlit("### `");
        reveal_strlit("**`");
        reveal_strlit("`**");
        reveal_strlit("`");
        assert(heading@ =~= heading_open());
        assert(bold_o@ =~= bold_open());
        assert(bold_c@ =~= bold_close());
        assert(tick@ =~= backtick());
    }
    (has_prefix_at(v, a, n, &heading) && has_suffix_at(v, 0, e, &tick)) || (has_prefix_at(
        v,
        a,
        n,
        &bold_o,
    ) && has_suffix_at(v, 0, e, &bold_c)) || (has_prefix_at(v, a, n, &tick) && has_suffix_at(
        v,
        0,
        e,
        &tick,
    ) && utf8_len_exceeds(v, 3))
}

fn bare_path_line_chars(v: &Vec<char>, d: &Vec<char>) -> (r: bool)
    ensures
        r == is_bare_path_line(v@, d@),
{
    let n = v.len();
    assert(v@.subrange(0, n as int) =~= v@);
    let (a, b) = trim_bounds(v, 0, n);
    a < b && v[a] != '#' && !has_prefix_at(v, a, b, d) && !has_ws_at(v, a, b)
}

fn fence_line_chars(v: &Vec<char>, d: &Vec<char>) -> (r: bool)
    ensures
        r == is_fence(v@, d@),
{
    let n = v.len();
    assert(v@.subrange(0, n as int) =~= v@);
    let a = skip_ws_forward(v, 0, n);
    has_prefix_at(v, a, n, d)
}

fn is_blank_string(s: &String) -> (r: bool)
    ensures
        r == is_blank(s@),
{
    let v = chars_of(s.as_str());
    let n = v.len();
    assert(v@.subrange(0, n as int) =~= v@);
    let (a, b) = trim_bounds(&v, 0, n);
    a == b
}

fn trim_end_string(s: &String) -> (r: String)
    ensures
        r@ == trim_end(s@),
{
    let v = chars_of(s.as_str());
    let n = v.len();
    assert(v@.subrange(0, n as int) =~= v@);
    let e = skip_ws_backward(&v, 0, n);
    string_of_range(&v, 0, e)
}

/// Parser over a document's lines, collecting the blocks it finds.
pub struct InjectionParser {
    pub state: ParserState,
    pub current_target_path: Option<String>,
    pub current_code_block: String,
    pub blocks: Vec<CodeBlock>,
    pub delimiter: String,
}

impl InjectionParser {
    pub open spec fn model(&self) -> ParseModel {
        ParseModel {
            in_block: self.state == ParserState::InCodeBlock,
            pending: match self.current_target_path {
                Some(p) => Some(p@),
                None => None,
            },
            buffer: self.current_code_block@,
            blocks: blocks_view(self.blocks@),
        }
    }

    /// A parser in its initial state, with the default delimiter.
    pub fn new() -> (r: Self)
        ensures
            r.model() == initial_model(),
            r.delimiter@ == default_delimiter(),
    {
        let d = String::from_str("```");
        proof {
            reveal_strlit("```");
            assert(d@ =~= default_delimiter());
        }
        let r = InjectionParser {
            state: ParserState::ExpectingPath,
            current_target_path: None,
            current_code_block: String::new(),
            blocks: Vec::new(),
            delimiter: d,
        };
        assert(blocks_view(r.blocks@) =~= seq![]);
        r
    }

    /// A parser in its initial state that recognises fences by `delimiter`.
    pub fn with_delimiter(delimiter: &str) -> (r: Self)
        ensures
            r.model() == initial_model(),
            r.delimiter@ == delimiter@,
    {
        let r = InjectionParser {
            state: ParserState::ExpectingPath,
            current_target_path: None,
            current_code_block: String::new(),
            blocks: Vec::new(),
            delimiter: delimiter.to_owned(),
        };
        assert(blocks_view(r.blocks@) =~= seq![]);
        r
    }

    /// Whether `line` announces a path in one of the three quoted forms.
    pub fn is_path_line(&self, line: &str) -> (r: bool)
        ensures
            r == is_quoted_path_line(line@),
    {
        let v = chars_of(line);
        quoted_path_line_chars(line, &v)
    }

    /// Closes the block in progress: it is kept when a path is pending and its
    /// content is not blank; the pending path and the content are cleared; the state is left as it is.
    pub fn finalize_current_block(&mut self)
        ensures
            final(self).model() == (ParseModel {
                in_block: old(self).model().in_block,
                ..close_block(old(self).model())
            }),
            final(self).state == old(self).state,
            final(self).delimiter == old(self).delimiter,
    {
        let ghost m = self.model();
        match &self.current_target_path {
            Some(target_path) => {
                if !is_blank_string(&self.current_code_block) {
                    let content = trim_end_string(&self.current_code_block);
                    let block = CodeBlock { target_path: target_path.clone(), content };
                    self.blocks.push(block);
                    assert(blocks_view(self.blocks@) =~= m.blocks.push(
                        (m.pending->0, trim_end(m.buffer)),
                    ));
                }
            },
            None => {},
        }
        self.current_target_path = None;
        self.current_code_block = String::new();
    }

    fn step_line(&mut self, line: &str)
        ensures
            final(self).model() == step(old(self).model(), line@, old(self).delimiter@),
            final(self).delimiter == old(self).delimiter,
    {
        let v = chars_of(line);
        let d = chars_of(self.delimiter.as_str());
        match self.state {
            ParserState::ExpectingPath => {
                if fence_line_chars(&v, &d) {
                    match fence_path_chars(line, &v, &d) {
                        Some(p) => {
                            self.current_target_path = Some(p.to_owned());
                        },
                        None => {},
                    }
                    self.state = ParserState::InCodeBlock;
                    self.current_code_block = String::new();
                } else if quoted_path_line_chars(line, &v) {
                    let p = extract_path(line);
                    let pv = chars_of(p);
                    let pn = pv.len();
                    assert(pv@.subrange(0, pn as int) =~= pv@);
                    let (a, b) = trim_bounds(&pv, 0, pn);
                    if a < b {
                        self.current_target_path = Some(p.to_owned());
                    } else {
                        self.current_target_path = None;
                    }
                } else if bare_path_line_chars(&v, &d) {
                    let n = v.len();
                    assert(v@.subrange(0, n as int) =~= v@);
                    let (a, b) = trim_bounds(&v, 0, n);
                    self.current_target_path = Some(string_of_range(&v, a, b));
                }
            },
            ParserState::InCodeBlock => {
                if fence_line_chars(&v, &d) {
                    self.finalize_current_block();
                    self.state = ParserState::ExpectingPath;
                } else {
                    let ghost b0 = self.current_code_block@;
                    self.current_code_block.append(line);
                    push_char(&mut self.current_code_block, '\n');
                    assert(self.current_code_block@ =~= b0 + line@ + seq!['\n']);
                }
            },
        }
    }

    /// Reads `content` line by line and returns the blocks found, in order; a block
    /// still open at the end of the input is kept as if it had been closed.
    pub fn parse(self, content: &str) -> (r: Vec<CodeBlock>)
        ensures
            blocks_view(r@) == finish(run(self.model(), lines(content@), self.delimiter@)),
    {
        let mut this = self;
        let ls = lines_of(content);
        let ghost all = lines(content@);
        let ghost start = self.model();
        let mut i: usize = 0;
        assert(all.skip(0) =~= all);
        while i < ls.len()
            invariant
                i <= ls@.len(),
                string_views(ls@) == all,
                this.delimiter == self.delimiter,
                run(this.model(), all.skip(i as int), this.delimiter@) == run(
                    start,
                    all,
                    self.delimiter@,
                ),
            decreases ls@.len() - i,
        {
            this.step_line(ls[i].as_str());
            proof {
                assert(all[i as int] == ls@[i as int]@);
                assert(all.skip(i as int).drop_first() =~= all.skip(i + 1));
            }
            i = i + 1;
        }
        assert(all.skip(i as int) =~= seq![]);
        if this.state == ParserState::InCodeBlock {
            this.finalize_current_block();
        }
        this.blocks
    }
}

/// The blocks of `content` under the default delimiter.
pub fn parse_blocks(content: &str) -> (r: Vec<CodeBlock>)
    ensures
        blocks_view(r@) == parse_document(content@, default_delimiter()),
{
    InjectionParser::new().parse(content)
}

/// The blocks of `content`, fences recognised by `delimiter`.
pub fn parse_blocks_with(content: &str, delimiter: &str) -> (r: Vec<CodeBlock>)
    ensures
        blocks_view(r@) == parse_document(content@, delimiter@),
{
    InjectionParser::with_delimiter(delimiter).parse(content)
}

} // verus!
