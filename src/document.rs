//! The serialized form of a file: `<delimiter><path>\n<body>\n<delimiter>\n\n`, and
//! the laws that tie it to the block parser.
use vstd::prelude::*;
use crate::parser::{
    backtick, bold_open, close_block, fence_path, heading_open, initial_model, is_blank,
    is_bare_path_line, is_fence, is_quoted_path_line, lemma_no_ws_trim, lemma_run_append,
    lemma_run_block_body, lemma_run_outside, lemma_trim_start_id, parse_document, run, step,
    ParseModel,
};
use crate::text::{
    has_ws, is_ws, lemma_lines_append, lemma_lines_single, lemma_lines_trailing, lemma_trim_empty,
    lemma_trim_end_take, lines, no_crlf, trim_end, trim_start,
};

verus! {

/// The text of one rendered file.
pub open spec fn block_text(d: Seq<char>, path: Seq<char>, body: Seq<char>) -> Seq<char> {
    d + path + seq!['\n'] + body + seq!['\n'] + d + seq!['\n', '\n']
}

/// The rendered files, one after the other.
pub open spec fn blocks_text(d: Seq<char>, files: Seq<(Seq<char>, Seq<char>)>) -> Seq<char>
    decreases files.len(),
{
    if files.len() == 0 {
        seq![]
    } else {
        block_text(d, files[0].0, files[0].1) + blocks_text(d, files.drop_first())
    }
}

/// A delimiter that the parser finds again: not empty and free of whitespace.
pub open spec fn plain_delimiter(d: Seq<char>) -> bool {
    d.len() > 0 && !has_ws(d)
}

/// A file that comes back unchanged from its rendered block: its path is one token
/// that holds `/` or `.`; its content does not end in whitespace, has no `"\r\n"`,
/// and none of its lines starts (after indentation) with the delimiter.
#[verifier::opaque]
pub open spec fn round_trip_safe(path: Seq<char>, content: Seq<char>, d: Seq<char>) -> bool {
    &&& path.len() > 0
    &&& !has_ws(path)
    &&& (path.contains('/') || path.contains('.'))
    &&& content.len() > 0
    &&& !is_ws(content.last())
    &&& no_crlf(content)
    &&& forall|k: int| 0 <= k < lines(content).len() ==> !is_fence(#[trigger] lines(content)[k], d)
}

/// Text whose lines the parser reads outside any block without opening one: empty,
/// or ending in a line break, and with no fence among its lines.
pub open spec fn fence_free_header(h: Seq<char>, d: Seq<char>) -> bool {
    &&& (h.len() == 0 || h.last() == '\n')
    &&& forall|k: int| 0 <= k < lines(h).len() ==> !is_fence(#[trigger] lines(h)[k], d)
}

proof fn lemma_no_newline(s: Seq<char>)
    requires
        !has_ws(s),
    ensures
        !s.contains('\n'),
        s.len() == 0 || s.last() != '\r',
{
    if s.contains('\n') {
        let j = choose|j: int| 0 <= j < s.len() && s[j] == '\n';
        assert(is_ws(s[j]));
    }
    if s.len() > 0 {
        assert(!is_ws(s[s.len() - 1]));
    }
}

proof fn lemma_lines_of_block(d: Seq<char>, p: Seq<char>, c: Seq<char>)
    requires
        plain_delimiter(d),
        round_trip_safe(p, c, d),
    ensures
        lines(block_text(d, p, c)) == seq![d + p] + lines(c) + seq![d] + seq![seq![]],
{
    reveal(round_trip_safe);
    let nl = seq!['\n'];
    let a = d + p + nl;
    let b = c + nl;
    let e = d + nl;
    assert(block_text(d, p, c) =~= a + (b + (e + nl)));
    assert(!has_ws(d + p)) by {
        if has_ws(d + p) {
            let j = choose|j: int| 0 <= j < (d + p).len() && is_ws(#[trigger] (d + p)[j]);
            if j < d.len() {
                assert((d + p)[j] == d[j]);
            } else {
                assert((d + p)[j] == p[j - d.len()]);
            }
        }
    }
    lemma_no_newline(d + p);
    lemma_no_newline(d);
    lemma_lines_single(d + p);
    lemma_lines_single(d);
    lemma_lines_single(seq![]);
    assert(seq![] + nl =~= nl);
    lemma_lines_trailing(c);
    lemma_lines_append(a, b + (e + nl));
    lemma_lines_append(b, e + nl);
    lemma_lines_append(e, nl);
    assert(lines(block_text(d, p, c)) =~= seq![d + p] + lines(c) + seq![d] + seq![seq![]]);
}

proof fn lemma_fence_line_announces(d: Seq<char>, p: Seq<char>, c: Seq<char>)
    requires
        plain_delimiter(d),
        round_trip_safe(p, c, d),
    ensures
        is_fence(d + p, d),
        fence_path(d + p, d) == Some(p),
{
    reveal(round_trip_safe);
    let s = d + p;
    assert(!is_ws(d[0]));
    assert(s[0] == d[0]);
    lemma_trim_start_id(s);
    assert(d.is_prefix_of(s)) by {
        assert(s.subrange(0, d.len() as int) =~= d);
    }
    assert(s.skip(d.len() as int) =~= p);
    lemma_no_ws_trim(p);
}

proof fn lemma_close_fence(d: Seq<char>)
    requires
        plain_delimiter(d),
    ensures
        is_fence(d, d),
{
    assert(!is_ws(d[0]));
    lemma_trim_start_id(d);
    assert(d.subrange(0, d.len() as int) =~= d);
}

proof fn lemma_empty_line_inert(m: ParseModel, d: Seq<char>)
    requires
        plain_delimiter(d),
        !m.in_block,
    ensures
        step(m, seq![], d) == m,
{
    let e: Seq<char> = seq![];
    assert(trim_start(e) == e);
    assert(trim_end(e) == e);
    assert(!is_fence(e, d));
    assert(!heading_open().is_prefix_of(e));
    assert(!bold_open().is_prefix_of(e));
    assert(!backtick().is_prefix_of(e));
    assert(!is_quoted_path_line(e));
    assert(!is_bare_path_line(e, d));
}

proof fn lemma_run_one_block(m: ParseModel, d: Seq<char>, p: Seq<char>, c: Seq<char>)
    requires
        plain_delimiter(d),
        round_trip_safe(p, c, d),
        !m.in_block,
    ensures
        !run(m, lines(block_text(d, p, c)), d).in_block,
        run(m, lines(block_text(d, p, c)), d).blocks == m.blocks.push((p, c)),
{
    reveal(round_trip_safe);
    let nl = seq!['\n'];
    lemma_lines_of_block(d, p, c);
    lemma_fence_line_announces(d, p, c);
    let m1 = step(m, d + p, d);
    assert(m1 == (ParseModel { in_block: true, pending: Some(p), buffer: seq![], blocks: m.blocks }));
    lemma_lines_trailing(c);
    assert forall|k: int| 0 <= k < lines(c + nl).len() implies !is_fence(
        #[trigger] lines(c + nl)[k],
        d,
    ) by {
        assert(lines(c + nl)[k] == lines(c)[k]);
    }
    assert forall|i: int| 0 < i < (c + nl).len() && #[trigger] (c + nl)[i] == '\n' implies (c
        + nl)[i - 1] != '\r' by {
        if i < c.len() {
            assert((c + nl)[i] == c[i]);
        }
        assert((c + nl)[i - 1] == c[i - 1]);
    }
    lemma_run_block_body(m1, c + nl, d);
    let m2 = run(m1, lines(c), d);
    assert(m2 == (ParseModel { buffer: seq![] + (c + nl), ..m1 }));
    assert(seq![] + (c + nl) =~= c + nl);
    lemma_close_fence(d);
    assert forall|i: int| c.len() <= i < (c + nl).len() implies is_ws(#[trigger] (c + nl)[i]) by {}
    lemma_trim_end_take(c + nl, c.len() as int);
    assert((c + nl).take(c.len() as int) =~= c);
    lemma_trim_empty(c + nl);
    assert(!is_ws((c + nl)[c.len() - 1]));
    assert(!is_blank(c + nl));
    let m3 = step(m2, d, d);
    assert(m3 == close_block(m2));
    lemma_empty_line_inert(m3, d);
    let ls = seq![d + p] + lines(c) + seq![d] + seq![seq![]];
    lemma_run_append(m, seq![d + p], lines(c) + seq![d] + seq![seq![]], d);
    assert(seq![d + p] + (lines(c) + seq![d] + seq![seq![]]) =~= ls);
    assert(seq![d + p].drop_first() =~= seq![]);
    assert(run(m, seq![d + p], d) == run(m1, seq![], d));
    lemma_run_append(m1, lines(c), seq![d] + seq![seq![]], d);
    assert(lines(c) + (seq![d] + seq![seq![]]) =~= lines(c) + seq![d] + seq![seq![]]);
    lemma_run_append(m2, seq![d], seq![seq![]], d);
    assert(seq![d].drop_first() =~= seq![]);
    assert(run(m2, seq![d], d) == run(m3, seq![], d));
    let e: Seq<Seq<char>> = seq![seq![]];
    assert(e.drop_first() =~= seq![]);
    assert(run(m3, e, d) == run(step(m3, seq![], d), seq![], d));
}

proof fn lemma_run_blocks(m: ParseModel, d: Seq<char>, files: Seq<(Seq<char>, Seq<char>)>)
    requires
        plain_delimiter(d),
        !m.in_block,
        forall|i: int| 0 <= i < files.len() ==> round_trip_safe(#[trigger] files[i].0, files[i].1, d),
    ensures
        !run(m, lines(blocks_text(d, files)), d).in_block,
        run(m, lines(blocks_text(d, files)), d).blocks == m.blocks + files,
    decreases files.len(),
{
    if files.len() == 0 {
        assert(lines(seq![]) =~= seq![]);
        assert(m.blocks + files =~= m.blocks);
    } else {
        let f = files[0];
        let rest = files.drop_first();
        let b = block_text(d, f.0, f.1);
        assert(round_trip_safe(files[0].0, files[0].1, d));
        assert(b.last() == '\n');
        lemma_lines_append(b, blocks_text(d, rest));
        lemma_run_append(m, lines(b), lines(blocks_text(d, rest)), d);
        lemma_run_one_block(m, d, f.0, f.1);
        let m1 = run(m, lines(b), d);
        assert forall|i: int| 0 <= i < rest.len() implies round_trip_safe(
            #[trigger] rest[i].0,
            rest[i].1,
            d,
        ) by {
            assert(rest[i] == files[i + 1]);
        }
        lemma_run_blocks(m1, d, rest);
        assert(m.blocks.push((f.0, f.1)) + rest =~= m.blocks + files);
    }
}

/// Round trip: files rendered into blocks after a header that holds no fence are
/// parsed back into exactly the same paths and contents, in the same order.
pub proof fn law_round_trip(
    header: Seq<char>,
    files: Seq<(Seq<char>, Seq<char>)>,
    d: Seq<char>,
)
    requires
        plain_delimiter(d),
        fence_free_header(header, d),
        forall|i: int| 0 <= i < files.len() ==> round_trip_safe(#[trigger] files[i].0, files[i].1, d),
    ensures
        parse_document(header + blocks_text(d, files), d) == files,
{
    let bt = blocks_text(d, files);
    let m0 = initial_model();
    if header.len() == 0 {
        assert(header + bt =~= bt);
        lemma_run_blocks(m0, d, files);
    } else {
        lemma_lines_append(header, bt);
        lemma_run_append(m0, lines(header), lines(bt), d);
        lemma_run_outside(m0, lines(header), d);
        lemma_run_blocks(run(m0, lines(header), d), d, files);
    }
    assert(seq![] + files =~= files);
}

/// A document that ends inside a fence, with a path pending and content that is not
/// blank, still yields that content, trimmed at its end, as its last block.
pub proof fn law_truncated_block_kept(content: Seq<char>, d: Seq<char>)
    requires
        run(initial_model(), lines(content), d).in_block,
        run(initial_model(), lines(content), d).pending is Some,
        !is_blank(run(initial_model(), lines(content), d).buffer),
    ensures
        ({
            let m = run(initial_model(), lines(content), d);
            parse_document(content, d) == m.blocks.push((m.pending->0, trim_end(m.buffer)))
        }),
{
}

/// Appending one more file appends its block.
pub proof fn lemma_blocks_text_push(
    d: Seq<char>,
    files: Seq<(Seq<char>, Seq<char>)>,
    f: (Seq<char>, Seq<char>),
)
    ensures
        blocks_text(d, files.push(f)) == blocks_text(d, files) + block_text(d, f.0, f.1),
    decreases files.len(),
{
    if files.len() == 0 {
        assert(files.push(f).drop_first() =~= seq![]);
        assert(blocks_text(d, seq![]) =~= seq![]);
        assert(blocks_text(d, files.push(f)) =~= block_text(d, f.0, f.1));
    } else {
        assert(files.push(f).drop_first() =~= files.drop_first().push(f));
        lemma_blocks_text_push(d, files.drop_first(), f);
        assert(files.push(f)[0] == files[0]);
        assert(blocks_text(d, files.push(f)) =~= blocks_text(d, files) + block_text(d, f.0, f.1));
    }
}

/// Renders one file as a block: `<delimiter><path>\n<body>\n<delimiter>\n\n`.
pub fn render_block(delimiter: &str, path: &str, body: &str) -> (r: String)
    ensures
        r@ == block_text(delimiter@, path@, body@),
{
    let mut r = String::new();
    r.append(delimiter);
    r.append(path);
    r.append("\n");
    r.append(body);
    r.append("\n");
    r.append(delimiter);
    r.append("\n\n");
    proof {
        reveal_strlit("\n");
        reveal_strlit("\n\n");
    }
    assert(r@ =~= block_text(delimiter@, path@, body@));
    r
}

} // verus!
