use vstd::prelude::*;

pub mod ast;
pub mod formatter;
pub mod parser;
pub mod scanner;
pub mod text;

use crate::ast::{all_linked, attrs_add, keys_unique, node_ast, tree_wf, Arena, AttrEntry, Node, NodeView};
use crate::formatter::{children_html, document_html, render, HtmlFormat};
use crate::ast::cleaned;
use crate::parser::{
    arena_lines, hash_attrs, line_number, paren_attrs, paren_value, parse_lines, threaded, CompileError, ErrorKind,
    Parser,
};
use crate::scanner::{lex, lexemes, tokenize, Lexeme};
use crate::text::{lemma_trim_idempotent, trim_seq};

verus! {

/// The trees that parsing a template can give: well formed, every node
/// attached, each line's node placed by indentation.
pub open spec fn parsed_tree(s: Seq<Node>) -> bool {
    &&& tree_wf(s)
    &&& all_linked(s)
    &&& threaded(s)
}

/// The nodes of a template's non-blank lines with their indentation, or
/// its first error.
pub open spec fn template_lines(haml: Seq<char>) -> Result<Seq<(NodeView, nat)>, (ErrorKind, int)> {
    parse_lines(lex(haml), 0)
}

/// Turns a template into a tree: one node per non-blank line, as
/// `template_lines` gives them, placed by indentation.
pub fn parse_template(haml: &str) -> (r: Result<Arena, CompileError>)
    requires
        haml@.len() < usize::MAX,
    ensures
        r matches Ok(a) ==> parsed_tree(a@),
        match template_lines(haml@) {
            Ok(lines) => r matches Ok(a) && arena_lines(a@) == lines,
            Err((k, q)) => r matches Err(e) && e.kind == k && e.near_token == q && e.line == line_number(lex(haml@), q),
        },
{
    let tokens = tokenize(haml);
    let mut parser = Parser::new(tokens);
    parser.parse()
}

/// Turns a template into markup of the given format.
pub fn to_html(haml: &str, format: HtmlFormat) -> (r: Result<String, CompileError>)
    requires
        haml@.len() < usize::MAX,
    ensures
        match template_lines(haml@) {
            Ok(lines) => r matches Ok(h) && exists|s: Seq<Node>|
                parsed_tree(s) && arena_lines(s) == lines && h@ == document_html(s, format),
            Err((k, q)) => r matches Err(e) && e.kind == k && e.near_token == q && e.line == line_number(lex(haml@), q),
        },
{
    let arena = parse_template(haml)?;
    let html = render(&arena, format);
    Ok(html)
}

/// Turns a template into a dump of its tree.
pub fn to_ast(haml: &str) -> (r: Result<String, CompileError>)
    requires
        haml@.len() < usize::MAX,
    ensures
        match template_lines(haml@) {
            Ok(lines) => r matches Ok(d) && exists|s: Seq<Node>|
                parsed_tree(s) && arena_lines(s) == lines && d@ == node_ast(s, 0, 0),
            Err((k, q)) => r matches Err(e) && e.kind == k && e.near_token == q && e.line == line_number(lex(haml@), q),
        },
{
    let arena = parse_template(haml)?;
    Ok(arena.to_ast())
}

/// In a tree that parsing gives, every node other than the root that hangs
/// under another node other than the root is indented deeper than it.
pub proof fn lemma_child_indented_deeper(s: Seq<Node>, i: int)
    requires
        parsed_tree(s),
        1 <= i < s.len(),
        s[i].parent != 0,
    ensures
        s[i].indentation > s[s[i].parent as int].indentation,
{
}

/// Children are listed in the order of their lines, and `next_sibling`
/// goes from each child to the one listed after it, the last having none.
pub proof fn lemma_siblings_in_order(s: Seq<Node>, p: int, k: int)
    requires
        parsed_tree(s),
        0 <= p < s.len(),
        0 <= k < s[p].children@.len(),
    ensures
        s[p].children@[k] > p,
        s[s[p].children@[k] as int].parent == p,
        k + 1 < s[p].children@.len() ==> s[p].children@[k] < s[p].children@[k + 1] && s[s[p].children@[k] as int].next_sibling
            == Some(s[p].children@[k + 1]),
        k + 1 == s[p].children@.len() ==> s[s[p].children@[k] as int].next_sibling is None,
{
}

/// The rendered document is already trimmed: trimming it again changes
/// nothing.
pub proof fn lemma_render_trimmed(s: Seq<Node>, f: HtmlFormat)
    requires
        tree_wf(s),
    ensures
        trim_seq(document_html(s, f)) == document_html(s, f),
{
    lemma_trim_idempotent(children_html(s, 0, s[0].children@.len() as int, f));
}

/// Adding a value keeps the order of names and of the values already there:
/// the value goes after the others under its name, and a new name goes
/// last.
pub proof fn lemma_add_keeps_order(a: Seq<AttrEntry>, key: Seq<char>, value: Seq<char>)
    requires
        keys_unique(a),
    ensures
        keys_unique(attrs_add(a, key, value)),
        forall|i: int|
            0 <= i < a.len() ==> {
                let b = #[trigger] attrs_add(a, key, value)[i];
                &&& b.0 == a[i].0
                &&& a[i].0 == key ==> b.1 == a[i].1.push(value)
                &&& a[i].0 != key ==> b.1 == a[i].1
            },
        (forall|i: int| 0 <= i < a.len() ==> (#[trigger] a[i]).0 != key) ==> attrs_add(a, key, value) == a.push(
            (key, seq![value]),
        ),
{
    let r = attrs_add(a, key, value);
    if exists|i: int| 0 <= i < a.len() && (#[trigger] a[i]).0 == key {
        let j = choose|i: int| 0 <= i < a.len() && (#[trigger] a[i]).0 == key;
        assert forall|i: int| 0 <= i < a.len() && a[i].0 == key implies i == j by {}
    } else {
        assert forall|i: int, k: int| 0 <= i < r.len() && 0 <= k < r.len() && i != k implies (#[trigger] r[i]).0
            != (#[trigger] r[k]).0 by {
            if i < a.len() && k < a.len() {
            } else if i == a.len() {
                assert(r[k] == a[k]);
            } else {
                assert(r[i] == a[i]);
            }
        }
    }
}

/// `b` keeps the names of `a` in the same places, and under each of them
/// the values of `a` come first, in the same order.
pub open spec fn extends_in_order(a: Seq<AttrEntry>, b: Seq<AttrEntry>) -> bool {
    &&& a.len() <= b.len()
    &&& forall|k: int|
        0 <= k < a.len() ==> (#[trigger] b[k]).0 == a[k].0 && a[k].1.len() <= b[k].1.len() && b[k].1.subrange(
            0,
            a[k].1.len() as int,
        ) == a[k].1
}

proof fn lemma_extends_refl(a: Seq<AttrEntry>)
    ensures
        extends_in_order(a, a),
{
    assert forall|k: int| 0 <= k < a.len() implies (#[trigger] a[k]).0 == a[k].0 && a[k].1.len() <= a[k].1.len()
        && a[k].1.subrange(0, a[k].1.len() as int) == a[k].1 by {
        assert(a[k].1.subrange(0, a[k].1.len() as int) =~= a[k].1);
    }
}

proof fn lemma_extends_add(a: Seq<AttrEntry>, b: Seq<AttrEntry>, key: Seq<char>, value: Seq<char>)
    requires
        keys_unique(b),
        extends_in_order(a, b),
    ensures
        keys_unique(attrs_add(b, key, value)),
        extends_in_order(a, attrs_add(b, key, value)),
{
    lemma_add_keeps_order(b, key, value);
    let c = attrs_add(b, key, value);
    assert forall|k: int| 0 <= k < a.len() implies (#[trigger] c[k]).0 == a[k].0 && a[k].1.len() <= c[k].1.len()
        && c[k].1.subrange(0, a[k].1.len() as int) == a[k].1 by {
        assert(c[k] == attrs_add(b, key, value)[k]);
        if b[k].0 == key {
            assert(c[k].1.subrange(0, a[k].1.len() as int) =~= b[k].1.subrange(0, a[k].1.len() as int));
        }
    }
}

/// The attribute lists that `{...}` builds keep the order of what was
/// there: names stay in place and new values come after the old ones under
/// their name.
pub proof fn lemma_hash_attrs_keep_order(t: Seq<Lexeme>, i: int, state: int, key: Seq<char>, acc: Seq<AttrEntry>)
    requires
        keys_unique(acc),
    ensures
        hash_attrs(t, i, state, key, acc) matches Ok((b, _)) ==> keys_unique(b) && extends_in_order(acc, b),
{
    lemma_extends_refl(acc);
    lemma_hash_from(t, i, state, key, acc, acc);
}

proof fn lemma_hash_from(t: Seq<Lexeme>, i: int, state: int, key: Seq<char>, base: Seq<AttrEntry>, acc: Seq<AttrEntry>)
    requires
        keys_unique(acc),
        extends_in_order(base, acc),
    ensures
        hash_attrs(t, i, state, key, acc) matches Ok((b, _)) ==> keys_unique(b) && extends_in_order(base, b),
    decreases t.len() - i,
{
    if 0 <= i < t.len() {
        match t[i] {
            Lexeme::Text(x) => {
                if state == 2 || state == 4 {
                    lemma_extends_add(base, acc, key, cleaned(x));
                    lemma_hash_from(t, i + 1, if state == 2 { 3 } else { 4 }, key, base, attrs_add(acc, key, cleaned(x)));
                }
            },
            Lexeme::Colon => {
                if state == 0 && i + 1 < t.len() {
                    if let Lexeme::Text(k) = t[i + 1] {
                        lemma_hash_from(t, i + 2, 1, k, base, acc);
                    }
                }
            },
            Lexeme::Whitespace => lemma_hash_from(t, i + 1, state, key, base, acc),
            Lexeme::Arrow => lemma_hash_from(t, i + 1, 2, key, base, acc),
            Lexeme::OpenBracket => lemma_hash_from(t, i + 1, 4, key, base, acc),
            Lexeme::CloseBracket => lemma_hash_from(t, i + 1, 3, key, base, acc),
            Lexeme::Comma => lemma_hash_from(t, i + 1, if state == 3 { 0 } else { 4 }, key, base, acc),
            _ => {},
        }
    }
}

/// The attribute lists that `(...)` builds keep the order of what was
/// there, in the same way.
pub proof fn lemma_paren_attrs_keep_order(
    t: Seq<Lexeme>,
    i: int,
    tag: Seq<char>,
    name: Option<Seq<char>>,
    after_eq: bool,
    acc: Seq<AttrEntry>,
)
    requires
        keys_unique(acc),
    ensures
        paren_attrs(t, i, tag, name, after_eq, acc) matches Ok((b, _)) ==> keys_unique(b) && extends_in_order(acc, b),
{
    lemma_extends_refl(acc);
    lemma_paren_from(t, i, tag, name, after_eq, acc, acc);
}

proof fn lemma_paren_from(
    t: Seq<Lexeme>,
    i: int,
    tag: Seq<char>,
    name: Option<Seq<char>>,
    after_eq: bool,
    base: Seq<AttrEntry>,
    acc: Seq<AttrEntry>,
)
    requires
        keys_unique(acc),
        extends_in_order(base, acc),
    ensures
        paren_attrs(t, i, tag, name, after_eq, acc) matches Ok((b, _)) ==> keys_unique(b) && extends_in_order(base, b),
    decreases t.len() - i,
{
    if 0 <= i < t.len() {
        match t[i] {
            Lexeme::Text(x) => {
                if after_eq {
                    let n = name->0;
                    let v = cleaned(paren_value(tag, n, x));
                    lemma_extends_add(base, acc, n, v);
                    lemma_paren_from(t, i + 1, tag, None, false, base, attrs_add(acc, n, v));
                } else if !after_eq {
                    lemma_paren_from(t, i + 1, tag, Some(x), false, base, acc);
                }
            },
            Lexeme::Whitespace => lemma_paren_from(t, i + 1, tag, name, after_eq, base, acc),
            Lexeme::Equal => lemma_paren_from(t, i + 1, tag, name, true, base, acc),
            _ => {},
        }
    }
}
} // verus!
