use prmpt::docstrings::{dedent, indent_docstring, strip_quotes};
use prmpt::generate::{render_body, FileContent};
use prmpt::notebook::{decimal_string, render_notebook, JsonValue};
use prmpt::signatures::{extract_python_signatures, SyntaxNode};

fn node(kind: &str, text: &str, named: bool, children: Vec<usize>) -> SyntaxNode {
    spanned(kind, text, named, 0, 0, children)
}

fn spanned(
    kind: &str,
    text: &str,
    named: bool,
    start: usize,
    end: usize,
    children: Vec<usize>,
) -> SyntaxNode {
    SyntaxNode { kind: kind.to_string(), text: text.to_string(), named, start, end, children }
}

/// A module holding one definition whose source is `source` and whose header
/// ends at character `colon_end`, with `kind` and a body of one `pass`.
fn one_definition(kind: &str, keyword: &str, source: &str, colon_end: usize) -> Vec<SyntaxNode> {
    vec![
        node("module", "", true, vec![1]),
        spanned(kind, source, true, 0, source.chars().count(), vec![2, 3, 4]),
        node(keyword, keyword, false, vec![]),
        spanned(":", ":", false, colon_end - 1, colon_end, vec![]),
        node("block", "", true, vec![5]),
        node("pass_statement", "pass", true, vec![]),
    ]
}

/// `def f(a):` with a docstring, inside a module that starts with a docstring.
fn sample_tree() -> Vec<SyntaxNode> {
    vec![
        node("module", "", true, vec![1, 3]),
        node("expression_statement", "\"\"\"Module doc.\"\"\"", true, vec![2]),
        node("string", "\"\"\"Module doc.\"\"\"", true, vec![]),
        spanned("function_definition", "def f(a):\n    body", true, 0, 18, vec![4, 5, 6, 7, 8]),
        node("def", "def", false, vec![]),
        node("identifier", "f", true, vec![]),
        node("parameters", "(a)", true, vec![]),
        spanned(":", ":", false, 8, 9, vec![]),
        node("block", "", true, vec![9, 11]),
        node("expression_statement", "", true, vec![10]),
        node("string", "'''Does f.\n\n    More.\n    '''", true, vec![]),
        spanned("class_definition", "class Inner:\n        pass", true, 40, 64, vec![12, 13, 14, 15]),
        node("class", "class", false, vec![]),
        node("identifier", "Inner", true, vec![]),
        spanned(":", ":", false, 51, 52, vec![]),
        node("block", "", true, vec![16]),
        node("pass_statement", "pass", true, vec![]),
    ]
}

#[test]
fn strip_quotes_kinds() {
    assert_eq!(strip_quotes("\"\"\"doc\"\"\""), ("doc", "\"\"\""));
    assert_eq!(strip_quotes("'''doc'''"), ("doc", "'''"));
    assert_eq!(strip_quotes("  \"doc\" "), ("doc", "\""));
    assert_eq!(strip_quotes("'x'"), ("x", "'"));
    assert_eq!(strip_quotes("plain"), ("plain", ""));
    assert_eq!(strip_quotes("\"\"\""), ("\"", "\""));
}

#[test]
fn dedent_drops_blank_first_line() {
    assert_eq!(dedent("\n    a\n      b"), "a\nb");
    assert_eq!(dedent("first\n  second"), "first\nsecond");
    assert_eq!(dedent(""), "");
    assert_eq!(dedent("a\r\n  b\r"), "a\nb\r");
}

#[test]
fn indent_docstring_one_line() {
    assert_eq!(indent_docstring("  Doc.  ", "    ", "\"\"\""), "    \"\"\"Doc.\"\"\"");
}

#[test]
fn indent_docstring_many_lines() {
    assert_eq!(
        indent_docstring("Line one.\n    Line two.\n", "  ", "'''"),
        "  '''\n  Line one.\n  Line two.\n  '''"
    );
}

#[test]
fn indent_docstring_without_quotes() {
    assert_eq!(indent_docstring("a\n  b", "> ", ""), "> a\n> b");
}

#[test]
fn signatures_with_docstrings() {
    let out = extract_python_signatures(&sample_tree());
    assert_eq!(
        out,
        "\"\"\"Module doc.\"\"\"\ndef f(a):\n    '''\n    Does f.\n    \n    More.\n    '''\n    class Inner:\n\n\n\n"
    );
}

#[test]
fn class_header_keeps_bases() {
    let tree = one_definition("class_definition", "class", "class A(Base):\n    pass", 14);
    assert_eq!(extract_python_signatures(&tree), "class A(Base):\n\n\n");
}

#[test]
fn function_header_keeps_return_annotation() {
    let tree = one_definition("function_definition", "def", "def h(x) -> int:\n    pass", 16);
    assert_eq!(extract_python_signatures(&tree), "def h(x) -> int:\n\n\n");
    let tree = one_definition("function_definition", "async", "async def k():\n    pass", 14);
    assert_eq!(extract_python_signatures(&tree), "async def k():\n\n\n");
}

#[test]
fn decorated_definition_keeps_decorators() {
    let tree = vec![
        node("module", "", true, vec![1]),
        node("decorated_definition", "", true, vec![2, 3]),
        node("decorator", "@cache", true, vec![]),
        spanned("function_definition", "def g():\n    return 1", true, 7, 28, vec![4, 5, 6, 7, 8]),
        node("def", "def", false, vec![]),
        node("identifier", "g", true, vec![]),
        node("parameters", "()", true, vec![]),
        spanned(":", ":", false, 14, 15, vec![]),
        node("block", "", true, vec![9]),
        node("return_statement", "return 1", true, vec![]),
    ];
    assert_eq!(extract_python_signatures(&tree), "@cache\ndef g():\n\n\n");
}

#[test]
fn docs_only_file_without_definitions_gives_nothing() {
    let tree = vec![
        node("module", "", true, vec![1]),
        node("expression_statement", "x = 1", true, vec![2]),
        node("assignment", "x = 1", true, vec![]),
    ];
    assert_eq!(extract_python_signatures(&tree), "");
    assert!(render_body(&FileContent::Signatures(tree), false).is_none());
}

#[test]
fn module_docstring_must_come_first() {
    let tree = vec![
        node("module", "", true, vec![1, 3]),
        node("expression_statement", "setup()", true, vec![2]),
        node("call", "setup()", true, vec![]),
        node("expression_statement", "\"late\"", true, vec![4]),
        node("string", "\"late\"", true, vec![]),
    ];
    assert_eq!(extract_python_signatures(&tree), "");
}

#[test]
fn decimal_numbers() {
    assert_eq!(decimal_string(0), "0");
    assert_eq!(decimal_string(7), "7");
    assert_eq!(decimal_string(1204), "1204");
}

fn s(x: &str) -> JsonValue {
    JsonValue::Str(x.to_string())
}

fn obj(entries: Vec<(&str, JsonValue)>) -> JsonValue {
    JsonValue::Object(entries.into_iter().map(|(k, v)| (k.to_string(), v)).collect())
}

fn sample_notebook() -> JsonValue {
    obj(vec![(
        "cells",
        JsonValue::Array(vec![
            obj(vec![
                ("cell_type", s("code")),
                ("source", JsonValue::Array(vec![s("x = 1\n"), s("x")])),
                (
                    "outputs",
                    JsonValue::Array(vec![
                        obj(vec![("text", JsonValue::Array(vec![s("out")]))]),
                        obj(vec![("data", obj(vec![("text/plain", s("1"))]))]),
                        obj(vec![("data", obj(vec![("text/plain", JsonValue::Array(vec![s("a"), s("b")]))]))]),
                    ]),
                ),
            ]),
            obj(vec![("cell_type", s("markdown")), ("source", JsonValue::Array(vec![s("# T")]))]),
            obj(vec![("cell_type", s("raw")), ("source", JsonValue::Array(vec![s("skip")]))]),
        ]),
    )])
}

#[test]
fn notebook_without_outputs() {
    assert_eq!(
        render_notebook(&sample_notebook(), false),
        "// Cell #0 (code)\nx = 1\nx\n// Cell #1 (markdown)\n# T\n"
    );
}

#[test]
fn notebook_with_outputs() {
    assert_eq!(
        render_notebook(&sample_notebook(), true),
        "// Cell #0 (code)\nx = 1\nx\n// Cell #0 (outputs)\nout\n1\nab\n// Cell #1 (markdown)\n# T\n"
    );
}

#[test]
fn notebook_without_cells() {
    assert_eq!(render_notebook(&JsonValue::Null, true), "");
}
