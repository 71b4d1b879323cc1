//! Notebook rendering: a transcript of a notebook's cells, from its JSON document.
use vstd::prelude::*;
use crate::text::{push_char, same_text};

verus! {

/// A JSON value, as the notebook renderer reads it. Object entries keep their
/// order; a key stands at most once.
#[derive(Debug)]
pub enum JsonValue {
    Null,
    Bool(bool),
    /// A number, in its textual form.
    Number(String),
    Str(String),
    Array(Vec<JsonValue>),
    Object(Vec<(String, JsonValue)>),
}

/// The value under `key` among `entries`, the first one when several share it.
pub open spec fn lookup(entries: Seq<(String, JsonValue)>, key: Seq<char>) -> Option<JsonValue>
    decreases entries.len(),
{
    if entries.len() == 0 {
        None
    } else if entries[0].0@ == key {
        Some(entries[0].1)
    } else {
        lookup(entries.drop_first(), key)
    }
}

/// The member `key` of an object; nothing for other values.
pub open spec fn member(v: JsonValue, key: Seq<char>) -> Option<JsonValue> {
    match v {
        JsonValue::Object(entries) => lookup(entries@, key),
        _ => None,
    }
}

pub open spec fn array_of(v: Option<JsonValue>) -> Option<Seq<JsonValue>> {
    match v {
        Some(JsonValue::Array(items)) => Some(items@),
        _ => None,
    }
}

pub open spec fn str_of(v: Option<JsonValue>) -> Option<Seq<char>> {
    match v {
        Some(JsonValue::Str(s)) => Some(s@),
        _ => None,
    }
}

/// The strings of `items`, one after the other; other values are skipped.
pub open spec fn joined_strings(items: Seq<JsonValue>) -> Seq<char>
    decreases items.len(),
{
    if items.len() == 0 {
        seq![]
    } else {
        joined_strings(items.drop_last()) + match items.last() {
            JsonValue::Str(s) => s@,
            _ => seq![],
        }
    }
}

/// Decimal digits of `n`.
pub open spec fn decimal(n: nat) -> Seq<char>
    decreases n,
{
    if n < 10 {
        seq![digit(n)]
    } else {
        decimal(n / 10) + seq![digit(n % 10)]
    }
}

pub open spec fn digit(d: nat) -> char {
    if d == 0 {
        '0'
    } else if d == 1 {
        '1'
    } else if d == 2 {
        '2'
    } else if d == 3 {
        '3'
    } else if d == 4 {
        '4'
    } else if d == 5 {
        '5'
    } else if d == 6 {
        '6'
    } else if d == 7 {
        '7'
    } else if d == 8 {
        '8'
    } else {
        '9'
    }
}

/// `// Cell #<i> (<tag>)` and a line break.
pub open spec fn cell_tag(i: nat, tag: Seq<char>) -> Seq<char> {
    "// Cell #"@ + decimal(i) + " ("@ + tag + ")"@ + seq!['\n']
}

/// The text of one output: a text array, or a bundle's plain-text entry, array or
/// string; each followed by a line break.
pub open spec fn output_text(o: JsonValue) -> Seq<char> {
    match array_of(member(o, "text"@)) {
        Some(items) => joined_strings(items) + seq!['\n'],
        None => match member(o, "data"@) {
            Some(JsonValue::Object(entries)) => {
                let plain = lookup(entries@, "text/plain"@);
                match array_of(plain) {
                    Some(items) => joined_strings(items) + seq!['\n'],
                    None => match str_of(plain) {
                        Some(s) => s + seq!['\n'],
                        None => seq![],
                    },
                }
            },
            _ => seq![],
        },
    }
}

pub open spec fn outputs_text(outs: Seq<JsonValue>) -> Seq<char>
    decreases outs.len(),
{
    if outs.len() == 0 {
        seq![]
    } else {
        outputs_text(outs.drop_last()) + output_text(outs.last())
    }
}

/// The source of a cell under its tag, or nothing when it has no source array.
pub open spec fn source_text(cell: JsonValue, i: nat, tag: Seq<char>) -> Seq<char> {
    match array_of(member(cell, "source"@)) {
        Some(items) => cell_tag(i, tag) + joined_strings(items) + seq!['\n'],
        None => seq![],
    }
}

/// The transcript of cell `i`: code cells give their source and, when outputs are
/// shown, their outputs; markdown cells give their source; other cells nothing.
pub open spec fn cell_text(cell: JsonValue, i: nat, show_outputs: bool) -> Seq<char> {
    let kind = str_of(member(cell, "cell_type"@));
    if kind == Some("code"@) {
        source_text(cell, i, "code"@) + if show_outputs {
            match array_of(member(cell, "outputs"@)) {
                Some(outs) => cell_tag(i, "outputs"@) + outputs_text(outs),
                None => seq![],
            }
        } else {
            seq![]
        }
    } else if kind == Some("markdown"@) {
        source_text(cell, i, "markdown"@)
    } else {
        seq![]
    }
}

pub open spec fn cells_text(cells: Seq<JsonValue>, show_outputs: bool) -> Seq<char>
    decreases cells.len(),
{
    if cells.len() == 0 {
        seq![]
    } else {
        cells_text(cells.drop_last(), show_outputs) + cell_text(
            cells.last(),
            (cells.len() - 1) as nat,
            show_outputs,
        )
    }
}

/// The transcript of a notebook document: its cells in order.
pub open spec fn notebook_text(doc: JsonValue, show_outputs: bool) -> Seq<char> {
    match array_of(member(doc, "cells"@)) {
        Some(cells) => cells_text(cells, show_outputs),
        None => seq![],
    }
}

/// The decimal form of `n`.
pub fn decimal_string(n: usize) -> (r: String)
    ensures
        r@ == decimal(n as nat),
    decreases n,
{
    let d = n % 10;
    let c = if d == 0 {
        '0'
    } else if d == 1 {
        '1'
    } else if d == 2 {
        '2'
    } else if d == 3 {
        '3'
    } else if d == 4 {
        '4'
    } else if d == 5 {
        '5'
    } else if d == 6 {
        '6'
    } else if d == 7 {
        '7'
    } else if d == 8 {
        '8'
    } else {
        '9'
    };
    if n < 10 {
        let mut r = String::new();
        push_char(&mut r, c);
        assert(r@ =~= seq![c]);
        r
    } else {
        let mut r = decimal_string(n / 10);
        push_char(&mut r, c);
        r
    }
}

fn lookup_exec<'a>(entries: &'a Vec<(String, JsonValue)>, key: &str) -> (r: Option<&'a JsonValue>)
    ensures
        match r {
            Some(v) => lookup(entries@, key@) == Some(*v),
            None => lookup(entries@, key@) is None,
        },
{
    let mut i: usize = 0;
    assert(entries@.skip(0) =~= entries@);
    while i < entries.len()
        invariant
            i <= entries@.len(),
            lookup(entries@, key@) == lookup(entries@.skip(i as int), key@),
        decreases entries@.len() - i,
    {
        assert(entries@.skip(i as int)[0] == entries@[i as int]);
        assert(entries@.skip(i as int).drop_first() =~= entries@.skip(i + 1));
        if same_text(entries[i].0.as_str(), key) {
            return Some(&entries[i].1);
        }
        i = i + 1;
    }
    None
}

fn member_exec<'a>(v: &'a JsonValue, key: &str) -> (r: Option<&'a JsonValue>)
    ensures
        match r {
            Some(x) => member(*v, key@) == Some(*x),
            None => member(*v, key@) is None,
        },
{
    match v {
        JsonValue::Object(entries) => lookup_exec(entries, key),
        _ => None,
    }
}

fn append_strings(out: &mut String, items: &Vec<JsonValue>)
    ensures
        final(out)@ == old(out)@ + joined_strings(items@),
{
    let ghost start = out@;
    let mut i: usize = 0;
    assert(items@.take(0) =~= seq![]);
    while i < items.len()
        invariant
            i <= items@.len(),
            out@ == start + joined_strings(items@.take(i as int)),
        decreases items@.len() - i,
    {
        assert(items@.take(i + 1).drop_last() =~= items@.take(i as int));
        match &items[i] {
            JsonValue::Str(s) => {
                out.append(s.as_str());
            },
            _ => {},
        }
        assert(out@ =~= start + joined_strings(items@.take(i + 1)));
        i = i + 1;
    }
    assert(items@.take(i as int) =~= items@);
}

fn append_tag(out: &mut String, i: usize, tag: &str)
    ensures
        final(out)@ == old(out)@ + cell_tag(i as nat, tag@),
{
    out.append("// Cell #");
    out.append(decimal_string(i).as_str());
    out.append(" (");
    out.append(tag);
    out.append(")");
    push_char(out, '\n');
    assert(final(out)@ =~= old(out)@ + cell_tag(i as nat, tag@));
}

fn append_output(out: &mut String, o: &JsonValue)
    ensures
        final(out)@ == old(out)@ + output_text(*o),
{
    let ghost start = out@;
    match member_exec(o, "text") {
        Some(JsonValue::Array(items)) => {
            append_strings(out, items);
            push_char(out, '\n');
            assert(out@ =~= start + output_text(*o));
            return;
        },
        _ => {},
    }
    match member_exec(o, "data") {
        Some(JsonValue::Object(entries)) => {
            match lookup_exec(entries, "text/plain") {
                Some(JsonValue::Array(items)) => {
                    append_strings(out, items);
                    push_char(out, '\n');
                    assert(out@ =~= start + output_text(*o));
                },
                Some(JsonValue::Str(s)) => {
                    out.append(s.as_str());
                    push_char(out, '\n');
                    assert(out@ =~= start + output_text(*o));
                },
                _ => {
                    assert(out@ =~= start + output_text(*o));
                },
            }
        },
        _ => {
            assert(out@ =~= start + output_text(*o));
        },
    }
}

fn append_source(out: &mut String, cell: &JsonValue, i: usize, tag: &str)
    ensures
        final(out)@ == old(out)@ + source_text(*cell, i as nat, tag@),
{
    let ghost start = out@;
    match member_exec(cell, "source") {
        Some(JsonValue::Array(items)) => {
            append_tag(out, i, tag);
            append_strings(out, items);
            push_char(out, '\n');
            assert(out@ =~= start + source_text(*cell, i as nat, tag@));
        },
        _ => {
            assert(out@ =~= start + source_text(*cell, i as nat, tag@));
        },
    }
}

fn append_cell(out: &mut String, cell: &JsonValue, i: usize, show_outputs: bool)
    ensures
        final(out)@ == old(out)@ + cell_text(*cell, i as nat, show_outputs),
{
    let ghost start = out@;
    proof {
        reveal_strlit("code");
        reveal_strlit("markdown");
    }
    let (is_code, is_markdown) = match member_exec(cell, "cell_type") {
        Some(JsonValue::Str(s)) => (same_text(s.as_str(), "code"), same_text(s.as_str(), "markdown")),
        _ => (false, false),
    };
    if is_code {
        append_source(out, cell, i, "code");
        let ghost mid = out@;
        if show_outputs {
            match member_exec(cell, "outputs") {
                Some(JsonValue::Array(outs)) => {
                    append_tag(out, i, "outputs");
                    let ghost tagged = out@;
                    let mut k: usize = 0;
                    assert(outs@.take(0) =~= seq![]);
                    while k < outs.len()
                        invariant
                            k <= outs@.len(),
                            out@ == tagged + outputs_text(outs@.take(k as int)),
                        decreases outs@.len() - k,
                    {
                        assert(outs@.take(k + 1).drop_last() =~= outs@.take(k as int));
                        append_output(out, &outs[k]);
                        assert(out@ =~= tagged + outputs_text(outs@.take(k + 1)));
                        k = k + 1;
                    }
                    assert(outs@.take(k as int) =~= outs@);
                },
                _ => {},
            }
        }
        assert(out@ =~= start + cell_text(*cell, i as nat, show_outputs));
    } else if is_markdown {
        append_source(out, cell, i, "markdown");
    } else {
        assert(out@ =~= start + cell_text(*cell, i as nat, show_outputs));
    }
}

/// The transcript of a notebook: for each code cell its source under
/// `// Cell #<i> (code)` and, when `show_outputs`, its textual outputs under
/// `// Cell #<i> (outputs)`; for each markdown cell its source under
/// `// Cell #<i> (markdown)`; other cells are skipped.
pub fn render_notebook(doc: &JsonValue, show_outputs: bool) -> (r: String)
    ensures
        r@ == notebook_text(*doc, show_outputs),
{
    let mut out = String::new();
    match member_exec(doc, "cells") {
        Some(JsonValue::Array(cells)) => {
            let mut i: usize = 0;
            assert(cells@.take(0) =~= seq![]);
            while i < cells.len()
                invariant
                    i <= cells@.len(),
                    out@ == cells_text(cells@.take(i as int), show_outputs),
                decreases cells@.len() - i,
            {
                assert(cells@.take(i + 1).drop_last() =~= cells@.take(i as int));
                append_cell(&mut out, &cells[i], i, show_outputs);
                i = i + 1;
            }
            assert(cells@.take(i as int) =~= cells@);
        },
        _ => {},
    }
    out
}

} // verus!
