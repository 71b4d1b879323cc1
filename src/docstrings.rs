//! Docstring helpers: quote stripping, dedenting and re-indenting.
use vstd::prelude::*;
use vstd::string::*;
use crate::text::{
    chars_of, contains_at, has_prefix_at, has_suffix_at, lines, lines_of, push_char,
    skip_ws_forward, string_of_range, string_views, trim, trim_bounds, trim_start,
};

verus! {

pub open spec fn triple_double() -> Seq<char> {
    seq!['"', '"', '"']
}

pub open spec fn triple_single() -> Seq<char> {
    seq!['\'', '\'', '\'']
}

/// The text of a string literal without its quotes, and the quotes it used (empty
/// when it is not quoted).
pub open spec fn stripped_quotes(s: Seq<char>) -> (Seq<char>, Seq<char>) {
    let t = trim(s);
    if t.len() >= 6 && ((triple_double().is_prefix_of(t) && triple_double().is_suffix_of(t)) || (
    triple_single().is_prefix_of(t) && triple_single().is_suffix_of(t))) {
        (t.subrange(3, t.len() - 3), t.take(3))
    } else if t.len() >= 2 && ((t[0] == '"' && t.last() == '"') || (t[0] == '\'' && t.last()
        == '\'')) {
        (t.subrange(1, t.len() - 1), t.take(1))
    } else {
        (t, seq![])
    }
}

/// Lines joined with `'\n'` between them.
pub open spec fn join_lines(ls: Seq<Seq<char>>) -> Seq<char>
    decreases ls.len(),
{
    if ls.len() == 0 {
        seq![]
    } else if ls.len() == 1 {
        ls[0]
    } else {
        join_lines(ls.drop_last()) + seq!['\n'] + ls.last()
    }
}

/// Each line with its leading whitespace removed.
pub open spec fn trim_starts(ls: Seq<Seq<char>>) -> Seq<Seq<char>> {
    ls.map_values(|l: Seq<char>| trim_start(l))
}

/// Each line with `indent` in front.
pub open spec fn prefixed(ls: Seq<Seq<char>>, indent: Seq<char>) -> Seq<Seq<char>> {
    ls.map_values(|l: Seq<char>| indent + l)
}

/// The lines of `s` without leading whitespace, a blank first line dropped, joined
/// again.
pub open spec fn dedented(s: Seq<char>) -> Seq<char> {
    let ls = lines(s);
    let kept = if ls.len() > 0 && trim(ls[0]).len() == 0 {
        ls.drop_first()
    } else {
        ls
    };
    join_lines(trim_starts(kept))
}

/// A docstring dedented, each line indented by `indent`, and its quotes put back:
/// on the same line for a one-line docstring, on lines of their own otherwise.
pub open spec fn indented_docstring(doc: Seq<char>, indent: Seq<char>, quote: Seq<char>) -> Seq<
    char,
> {
    let d = dedented(doc);
    let body = join_lines(prefixed(lines(d), indent));
    if quote.len() == 0 {
        body
    } else if !d.contains('\n') {
        indent + quote + trim(d) + quote
    } else {
        indent + quote + seq!['\n'] + body + seq!['\n'] + indent + quote
    }
}

/// Strips the quotes around a string literal; returns the inner text and the
/// quotes used.
pub fn strip_quotes(s: &str) -> (r: (&str, &str))
    ensures
        (r.0@, r.1@) == stripped_quotes(s@),
{
    let v = chars_of(s);
    let n = v.len();
    assert(v@.subrange(0, n as int) =~= v@);
    let (a, b) = trim_bounds(&v, 0, n);
    let ghost t = v@.subrange(a as int, b as int);
    let dq = chars_of("\"\"\"");
    let sq = chars_of("'''");
    proof {
        reveal_strlit("\"\"\"");
        reveal_strlit("'''");
        assert(dq@ =~= triple_double());
        assert(sq@ =~= triple_single());
    }
    if b - a >= 6 && ((has_prefix_at(&v, a, b, &dq) && has_suffix_at(&v, a, b, &dq)) || (
    has_prefix_at(&v, a, b, &sq) && has_suffix_at(&v, a, b, &sq))) {
        assert(t.subrange(3, t.len() - 3) =~= v@.subrange(a + 3, b - 3));
        assert(t.take(3) =~= v@.subrange(a as int, a + 3));
        (s.substring_char(a + 3, b - 3), s.substring_char(a, a + 3))
    } else if b - a >= 2 && ((v[a] == '"' && v[b - 1] == '"') || (v[a] == '\'' && v[b - 1]
        == '\'')) {
        assert(t.subrange(1, t.len() - 1) =~= v@.subrange(a + 1, b - 1));
        assert(t.take(1) =~= v@.subrange(a as int, a + 1));
        (s.substring_char(a + 1, b - 1), s.substring_char(a, a + 1))
    } else {
        (s.substring_char(a, b), s.substring_char(a, a))
    }
}

/// Joins the views of `parts` with `'\n'`, each with `indent` in front and, when
/// `trim_each`, without leading whitespace.
fn join_with_newlines(parts: &Vec<String>, from: usize, indent: &str, trim_each: bool) -> (r: String)
    requires
        from <= parts@.len(),
    ensures
        trim_each ==> r@ == join_lines(prefixed(trim_starts(string_views(parts@).skip(from as int)), indent@)),
        !trim_each ==> r@ == join_lines(prefixed(string_views(parts@).skip(from as int), indent@)),
{
    let ghost all = string_views(parts@).skip(from as int);
    let ghost target = if trim_each {
        prefixed(trim_starts(all), indent@)
    } else {
        prefixed(all, indent@)
    };
    let mut r = String::new();
    let mut i = from;
    assert(target.take(0) =~= seq![]);
    while i < parts.len()
        invariant
            from <= i <= parts@.len(),
            all == string_views(parts@).skip(from as int),
            target == (if trim_each {
                prefixed(trim_starts(all), indent@)
            } else {
                prefixed(all, indent@)
            }),
            r@ == join_lines(target.take(i - from)),
        decreases parts@.len() - i,
    {
        let line = parts[i].as_str();
        let v = chars_of(line);
        let n = v.len();
        assert(v@.subrange(0, n as int) =~= v@);
        let start = if trim_each {
            skip_ws_forward(&v, 0, n)
        } else {
            0
        };
        let piece = string_of_range(&v, start, n);
        let ghost before = r@;
        if i > from {
            push_char(&mut r, '\n');
        }
        r.append(indent);
        r.append(piece.as_str());
        proof {
            let k = i - from;
            assert(all[k] == line@);
            assert(target[k] == indent@ + piece@);
            assert(target.take(k + 1).drop_last() =~= target.take(k));
            assert(target.take(k + 1).last() == target[k]);
            if k == 0 {
                assert(target.take(1) =~= seq![target[0]]);
                assert(r@ =~= indent@ + piece@);
            } else {
                assert(r@ =~= before + seq!['\n'] + (indent@ + piece@));
            }
        }
        i = i + 1;
    }
    assert(target.take(i - from) =~= target);
    r
}

/// Removes the leading whitespace of each line and drops a blank first line.
pub fn dedent(s: &str) -> (r: String)
    ensures
        r@ == dedented(s@),
{
    let ls = lines_of(s);
    let ghost all = lines(s@);
    let mut from: usize = 0;
    if ls.len() > 0 {
        let v = chars_of(ls[0].as_str());
        let n = v.len();
        assert(v@.subrange(0, n as int) =~= v@);
        let (a, b) = trim_bounds(&v, 0, n);
        if a == b {
            from = 1;
        }
        assert(all[0] == ls@[0]@);
    }
    let r = join_with_newlines(&ls, from, "", true);
    proof {
        reveal_strlit("");
        let kept = if all.len() > 0 && trim(all[0]).len() == 0 {
            all.drop_first()
        } else {
            all
        };
        assert(string_views(ls@).skip(from as int) =~= kept);
        assert(prefixed(trim_starts(kept), ""@) =~= trim_starts(kept));
    }
    r
}

/// Re-indents a docstring: dedents it, puts `indent` before each line and puts the
/// quotes back around it.
pub fn indent_docstring(docstring: &str, indent: &str, quote_type: &str) -> (r: String)
    ensures
        r@ == indented_docstring(docstring@, indent@, quote_type@),
{
    let d = dedent(docstring);
    let ls = lines_of(d.as_str());
    let body = join_with_newlines(&ls, 0, indent, false);
    assert(string_views(ls@).skip(0) =~= lines(d@));
    if quote_type.unicode_len() == 0 {
        return body;
    }
    let dv = chars_of(d.as_str());
    let dn = dv.len();
    assert(dv@.subrange(0, dn as int) =~= dv@);
    if !contains_at(&dv, 0, dn, '\n') {
        let (a, b) = trim_bounds(&dv, 0, dn);
        let mut r = indent.to_owned();
        r.append(quote_type);
        r.append(string_of_range(&dv, a, b).as_str());
        r.append(quote_type);
        assert(r@ =~= indent@ + quote_type@ + trim(d@) + quote_type@);
        r
    } else {
        let mut r = indent.to_owned();
        r.append(quote_type);
        push_char(&mut r, '\n');
        r.append(body.as_str());
        push_char(&mut r, '\n');
        r.append(indent);
        r.append(quote_type);
        assert(r@ =~= indent@ + quote_type@ + seq!['\n'] + body@ + seq!['\n'] + indent@ + quote_type@);
        r
    }
}

} // verus!
