use vstd::prelude::*;
use crate::ast::{AttrEntry, Arena, Attributes, Html, HtmlElement, Node};
use crate::text::{push_text, same_text, trim, trim_end, trim_end_seq, trim_seq};

verus! {

/// The kind of markup to produce.
#[derive(PartialEq, Eq, Structural, Clone, Copy)]
pub enum HtmlFormat {
    XHtml,
    Html5,
    Html4,
}

/// Elements that have no closing tag in HTML.
pub open spec fn is_void(tag: Seq<char>) -> bool {
    tag == "area"@ || tag == "base"@ || tag == "br"@ || tag == "col"@ || tag == "embed"@ || tag == "hr"@
        || tag == "img"@ || tag == "input"@ || tag == "link"@ || tag == "meta"@ || tag == "param"@
        || tag == "source"@ || tag == "track"@ || tag == "wbr"@
}

/// Elements whose content keeps its own whitespace.
pub open spec fn is_raw(tag: Seq<char>) -> bool {
    tag == "pre"@ || tag == "textarea"@
}

/// The values of an attribute, separated by single spaces.
pub open spec fn join_space(v: Seq<Seq<char>>) -> Seq<char>
    decreases v.len(),
{
    if v.len() == 0 {
        seq![]
    } else if v.len() == 1 {
        v[0]
    } else {
        join_space(v.drop_last()) + seq![' '] + v.last()
    }
}

/// One attribute as it is written in a tag, with its leading space.
pub open spec fn attr_html(e: AttrEntry, f: HtmlFormat) -> Seq<char> {
    let v = join_space(e.1);
    if e.0 == "checked"@ && v == "true"@ {
        if f == HtmlFormat::XHtml {
            " checked='checked'"@
        } else {
            " checked"@
        }
    } else if f != HtmlFormat::XHtml && e.0 == "checked"@ && v == "checked"@ {
        " checked"@
    } else {
        seq![' '] + e.0 + "='"@ + v + "'"@
    }
}

/// All attributes of a tag, in order.
pub open spec fn attrs_html(a: Seq<AttrEntry>, f: HtmlFormat) -> Seq<char>
    decreases a.len(),
{
    if a.len() == 0 {
        seq![]
    } else {
        attrs_html(a.drop_last(), f) + attr_html(a.last(), f)
    }
}

/// The document type line for a specifier and a format.
pub open spec fn doctype_html(spec: Seq<char>, f: HtmlFormat) -> Seq<char> {
    if spec == "XML"@ {
        "<?xml version='1.0' encoding='utf-8' ?>"@
    } else if f == HtmlFormat::Html5 {
        "<!DOCTYPE html>"@
    } else if f == HtmlFormat::XHtml {
        if spec == "5"@ {
            "<!DOCTYPE html>"@
        } else if spec == "Strict"@ {
            "<!DOCTYPE html PUBLIC \"-//W3C//DTD XHTML 1.0 Strict//EN\" \"http://www.w3.org/TR/xhtml1/DTD/xhtml1-strict.dtd\">"@
        } else {
            "<!DOCTYPE html PUBLIC \"-//W3C//DTD XHTML 1.0 Transitional//EN\" \"http://www.w3.org/TR/xhtml1/DTD/xhtml1-transitional.dtd\">"@
        }
    } else {
        if spec == "Strict"@ {
            "<!DOCTYPE html PUBLIC \"-//W3C//DTD HTML 4.01//EN\" \"http://www.w3.org/TR/html4/strict.dtd\">"@
        } else {
            "<!DOCTYPE html PUBLIC \"-//W3C//DTD HTML 4.01 Transitional//EN\" \"http://www.w3.org/TR/html4/loose.dtd\">"@
        }
    }
}

/// An element that closes its own opening tag with ` />` and stops there:
/// `input` and self-closing elements in XHTML.
pub open spec fn closes_itself(el: HtmlElement, f: HtmlFormat) -> bool {
    f == HtmlFormat::XHtml && (el.tag@ == "input"@ || el.self_close)
}

/// An element written without a closing tag: void and self-closing
/// elements in HTML.
pub open spec fn has_no_close_tag(el: HtmlElement, f: HtmlFormat) -> bool {
    f != HtmlFormat::XHtml && (is_void(el.tag@) || el.self_close)
}

/// An element, given the markup of its children.
pub open spec fn element_wrap(el: HtmlElement, kids: Seq<char>, has_kids: bool, f: HtmlFormat) -> Seq<char> {
    let open = seq!['<'] + el.tag@ + attrs_html(el.attributes@, f);
    if closes_itself(el, f) {
        open + " />"@
    } else {
        let head = open + seq!['>'] + trim_seq(el.inline_text@);
        let inner = if is_raw(el.tag@) {
            trim_end_seq(head + kids)
        } else if has_kids {
            head + seq!['\n'] + kids
        } else {
            head
        };
        if has_no_close_tag(el, f) {
            inner
        } else {
            inner + "</"@ + el.tag@ + ">\n"@
        }
    }
}

/// A comment, given the markup of its children.
pub open spec fn comment_wrap(body: Seq<char>, kids: Seq<char>, has_kids: bool, f: HtmlFormat) -> Seq<char> {
    if has_kids {
        "<!--\n"@ + kids + "-->"@
    } else if f == HtmlFormat::XHtml {
        "<!--"@ + body + "-->"@
    } else {
        "<!-- "@ + body + " -->"@
    }
}

/// The markup of node `id` and everything under it.
pub open spec fn node_html(s: Seq<Node>, id: int, f: HtmlFormat) -> Seq<char>
    decreases s.len() - id, 1int, 0int,
{
    if id < 0 || id >= s.len() {
        seq![]
    } else {
        let n = s[id];
        let kids = children_html(s, id, n.children@.len() as int, f);
        let has_kids = n.children@.len() > 0;
        match n.data {
            Html::Element(el) => element_wrap(el, kids, has_kids, f),
            Html::Comment(body) => comment_wrap(body@, kids, has_kids, f),
            Html::Text(t) => t@ + seq!['\n'],
            Html::Doctype(d) => doctype_html(d@, f),
            _ => seq![],
        }
    }
}

/// The markup of the first `k` children of node `p`, one after the other.
pub open spec fn children_html(s: Seq<Node>, p: int, k: int, f: HtmlFormat) -> Seq<char>
    decreases s.len() - p, 0int, k,
{
    if k <= 0 || p < 0 || p >= s.len() || k > s[p].children@.len() {
        seq![]
    } else {
        let c = s[p].children@[k - 1] as int;
        if c <= p || c >= s.len() {
            seq![]
        } else {
            children_html(s, p, k - 1, f) + node_html(s, c, f)
        }
    }
}

/// The document: the markup of the root's children, trimmed.
pub open spec fn document_html(s: Seq<Node>, f: HtmlFormat) -> Seq<char> {
    trim_seq(children_html(s, 0, s[0].children@.len() as int, f))
}

fn void_tag(tag: &str) -> (r: bool)
    ensures
        r == is_void(tag@),
{
    same_text(tag, "area") || same_text(tag, "base") || same_text(tag, "br") || same_text(tag, "col")
        || same_text(tag, "embed") || same_text(tag, "hr") || same_text(tag, "img") || same_text(tag, "input")
        || same_text(tag, "link") || same_text(tag, "meta") || same_text(tag, "param") || same_text(tag, "source")
        || same_text(tag, "track") || same_text(tag, "wbr")
}

fn raw_tag(tag: &str) -> (r: bool)
    ensures
        r == is_raw(tag@),
{
    same_text(tag, "pre") || same_text(tag, "textarea")
}

/// The values of an attribute joined by single spaces.
pub fn join_values(values: &Vec<String>) -> (r: String)
    ensures
        r@ == join_space(values.deep_view()),
{
    let ghost v = values.deep_view();
    let mut out = String::new();
    let mut i: usize = 0;
    while i < values.len()
        invariant
            v == values.deep_view(),
            i <= values@.len(),
            out@ == join_space(v.subrange(0, i as int)),
        decreases values@.len() - i,
    {
        if i > 0 {
            push_text(&mut out, " ");
        }
        push_text(&mut out, values[i].as_str());
        proof {
            reveal_strlit(" ");
            let w = v.subrange(0, i + 1);
            assert(w.drop_last() =~= v.subrange(0, i as int));
            assert(w.last() == values@[i as int]@);
            if i == 0 {
                assert(join_space(v.subrange(0, 0)) =~= seq![]);
                assert(out@ =~= join_space(w));
            } else {
                assert(out@ =~= join_space(w));
            }
        }
        i = i + 1;
    }
    assert(v.subrange(0, values@.len() as int) =~= v);
    out
}

/// The attributes of a tag, each with its leading space.
pub fn attributes_to_html(attrs: &Attributes, f: HtmlFormat) -> (r: String)
    requires
        attrs.wf(),
    ensures
        r@ == attrs_html(attrs@, f),
{
    let ghost a = attrs@;
    let mut out = String::new();
    let n = attrs.len();
    let mut i: usize = 0;
    while i < n
        invariant
            attrs.wf(),
            a == attrs@,
            n == a.len(),
            i <= n,
            out@ == attrs_html(a.subrange(0, i as int), f),
        decreases n - i,
    {
        let key = attrs.key_at(i);
        let value = join_values(attrs.values_at(i));
        let is_checked = same_text(key.as_str(), "checked");
        if is_checked && same_text(value.as_str(), "true") {
            if f == HtmlFormat::XHtml {
                push_text(&mut out, " checked='checked'");
            } else {
                push_text(&mut out, " checked");
            }
        } else if f != HtmlFormat::XHtml && is_checked && same_text(value.as_str(), "checked") {
            push_text(&mut out, " checked");
        } else {
            push_text(&mut out, " ");
            push_text(&mut out, key.as_str());
            push_text(&mut out, "='");
            push_text(&mut out, value.as_str());
            push_text(&mut out, "'");
        }
        proof {
            reveal_strlit(" ");
            let w = a.subrange(0, i + 1);
            assert(w.drop_last() =~= a.subrange(0, i as int));
            assert(w.last() == a[i as int]);
            assert(out@ =~= attrs_html(w, f));
        }
        i = i + 1;
    }
    assert(a.subrange(0, n as int) =~= a);
    out
}

/// The document type line for `spec` in format `f`.
pub fn doctype_to_html(spec: &str, f: HtmlFormat) -> (r: String)
    ensures
        r@ == doctype_html(spec@, f),
{
    let text = if same_text(spec, "XML") {
        "<?xml version='1.0' encoding='utf-8' ?>"
    } else if f == HtmlFormat::Html5 {
        "<!DOCTYPE html>"
    } else if f == HtmlFormat::XHtml {
        if same_text(spec, "5") {
            "<!DOCTYPE html>"
        } else if same_text(spec, "Strict") {
            "<!DOCTYPE html PUBLIC \"-//W3C//DTD XHTML 1.0 Strict//EN\" \"http://www.w3.org/TR/xhtml1/DTD/xhtml1-strict.dtd\">"
        } else {
            "<!DOCTYPE html PUBLIC \"-//W3C//DTD XHTML 1.0 Transitional//EN\" \"http://www.w3.org/TR/xhtml1/DTD/xhtml1-transitional.dtd\">"
        }
    } else {
        if same_text(spec, "Strict") {
            "<!DOCTYPE html PUBLIC \"-//W3C//DTD HTML 4.01//EN\" \"http://www.w3.org/TR/html4/strict.dtd\">"
        } else {
            "<!DOCTYPE html PUBLIC \"-//W3C//DTD HTML 4.01 Transitional//EN\" \"http://www.w3.org/TR/html4/loose.dtd\">"
        }
    };
    String::from_str(text)
}

/// An element, given the markup of its children.
fn element_to_html(el: &HtmlElement, kids: String, has_kids: bool, f: HtmlFormat) -> (r: String)
    requires
        el.wf(),
    ensures
        r@ == element_wrap(*el, kids@, has_kids, f),
{
    let mut html = String::from_str("<");
    push_text(&mut html, el.tag.as_str());
    let attrs = attributes_to_html(&el.attributes, f);
    push_text(&mut html, attrs.as_str());
    proof {
        reveal_strlit("<");
    }
    let ghost open = html@;
    assert(open =~= seq!['<'] + el.tag@ + attrs_html(el.attributes@, f));
    if f == HtmlFormat::XHtml && (same_text(el.tag.as_str(), "input") || el.self_close) {
        push_text(&mut html, " />");
        return html;
    }
    let no_close = f != HtmlFormat::XHtml && (void_tag(el.tag.as_str()) || el.self_close);
    push_text(&mut html, ">");
    let inline = trim(el.inline_text.as_str());
    push_text(&mut html, inline.as_str());
    proof {
        reveal_strlit(">");
    }
    let ghost head = html@;
    assert(head =~= open + seq!['>'] + trim_seq(el.inline_text@));
    if raw_tag(el.tag.as_str()) {
        push_text(&mut html, kids.as_str());
        html = trim_end(html.as_str());
    } else if has_kids {
        push_text(&mut html, "\n");
        push_text(&mut html, kids.as_str());
        proof {
            reveal_strlit("\n");
            assert(html@ =~= head + seq!['\n'] + kids@);
        }
    }
    let ghost inner = html@;
    assert(inner == if is_raw(el.tag@) {
        trim_end_seq(head + kids@)
    } else if has_kids {
        head + seq!['\n'] + kids@
    } else {
        head
    });
    assert(!closes_itself(*el, f));
    if no_close {
        return html;
    }
    push_text(&mut html, "</");
    push_text(&mut html, el.tag.as_str());
    push_text(&mut html, ">\n");
    assert(html@ =~= inner + "</"@ + el.tag@ + ">\n"@);
    html
}

/// A comment, given the markup of its children.
fn comment_to_html(body: &str, kids: String, has_kids: bool, f: HtmlFormat) -> (r: String)
    ensures
        r@ == comment_wrap(body@, kids@, has_kids, f),
{
    let mut html = String::new();
    if has_kids {
        push_text(&mut html, "<!--\n");
        push_text(&mut html, kids.as_str());
        push_text(&mut html, "-->");
    } else if f == HtmlFormat::XHtml {
        push_text(&mut html, "<!--");
        push_text(&mut html, body);
        push_text(&mut html, "-->");
    } else {
        push_text(&mut html, "<!-- ");
        push_text(&mut html, body);
        push_text(&mut html, " -->");
    }
    assert(html@ =~= comment_wrap(body@, kids@, has_kids, f));
    html
}

/// The markup of node `id` and everything under it.
pub fn item_to_html(arena: &Arena, id: usize, f: HtmlFormat) -> (r: String)
    requires
        arena.wf(),
        id < arena@.len(),
    ensures
        r@ == node_html(arena@, id as int, f),
    decreases arena@.len() - id,
{
    let node = arena.node_at(id);
    let ghost s = arena@;
    match &node.data {
        Html::Text(t) => {
            let mut html = t.clone();
            push_text(&mut html, "\n");
            proof {
                reveal_strlit("\n");
            }
            return html;
        },
        Html::Doctype(d) => {
            return doctype_to_html(d.as_str(), f);
        },
        Html::SilentComment(_) => {
            return String::new();
        },
        Html::Css(_) => {
            return String::new();
        },
        _ => {},
    }
    let n = node.children.len();
    if let Html::Element(el) = &node.data {
        if f == HtmlFormat::XHtml && (same_text(el.tag.as_str(), "input") || el.self_close) {
            return element_to_html(el, String::new(), n > 0, f);
        }
    }
    let mut kids = String::new();
    let mut k: usize = 0;
    while k < n
        invariant
            arena.wf(),
            s == arena@,
            id < s.len(),
            *node == s[id as int],
            n == s[id as int].children@.len(),
            k <= n,
            kids@ == children_html(s, id as int, k as int, f),
        decreases n - k,
    {
        let c = node.children[k];
        proof {
            assert(id < c < s.len());
        }
        let part = item_to_html(arena, c, f);
        push_text(&mut kids, part.as_str());
        k = k + 1;
    }
    match &node.data {
        Html::Element(el) => element_to_html(el, kids, n > 0, f),
        Html::Comment(body) => comment_to_html(body.as_str(), kids, n > 0, f),
        _ => String::new(),
    }
}

/// The whole document in format `f`: the markup of the root's children,
/// trimmed.
pub fn render(arena: &Arena, f: HtmlFormat) -> (r: String)
    requires
        arena.wf(),
    ensures
        r@ == document_html(arena@, f),
{
    let ghost s = arena@;
    let root = arena.root();
    let n = root.children.len();
    let mut html = String::new();
    let mut k: usize = 0;
    while k < n
        invariant
            arena.wf(),
            s == arena@,
            *root == s[0],
            n == s[0].children@.len(),
            k <= n,
            html@ == children_html(s, 0, k as int, f),
        decreases n - k,
    {
        let c = root.children[k];
        let part = item_to_html(arena, c, f);
        push_text(&mut html, part.as_str());
        k = k + 1;
    }
    trim(html.as_str())
}

/// A renderer for XHTML.
pub struct XHtmlFormatter;

impl XHtmlFormatter {
    pub fn new() -> (r: XHtmlFormatter) {
        XHtmlFormatter
    }

    /// The whole document as XHTML.
    pub fn generate(&self, arena: &Arena) -> (r: String)
        requires
            arena.wf(),
        ensures
            r@ == document_html(arena@, HtmlFormat::XHtml),
    {
        render(arena, HtmlFormat::XHtml)
    }
}

} // verus!
