use haml::ast::{Arena, Attributes, Html, HtmlElement};
use haml::formatter::{join_values, render, HtmlFormat, XHtmlFormatter};
use haml::parser::ErrorKind;
use haml::{parse_template, to_ast, to_html};

fn html5(haml: &str) -> String {
    to_html(haml, HtmlFormat::Html5).unwrap()
}

#[test]
fn element_alone() {
    assert_eq!("<span></span>", html5("%span"));
    assert_eq!("<span></span>", to_html("%span", HtmlFormat::XHtml).unwrap());
    assert_eq!("<span></span>", to_html("%span", HtmlFormat::Html4).unwrap());
}

#[test]
fn element_with_child() {
    assert_eq!("<span>\n<a></a>\n</span>", html5("%span\n  %a"));
}

#[test]
fn element_with_two_children() {
    assert_eq!("<div>\n<span></span>\n<a></a>\n</div>", html5("%div\n  %span\n  %a"));
}

#[test]
fn class_shorthand_makes_a_div() {
    assert_eq!("<div class='box'></div>", html5(".box"));
    assert_eq!("<div id='main'></div>", html5("#main"));
    assert_eq!("<p class='a b' id='x'></p>", html5("%p.a.b#x"));
}

#[test]
fn checked_input() {
    assert_eq!("<input checked='checked' />", to_html("%input(checked=true)", HtmlFormat::XHtml).unwrap());
    assert_eq!("<input checked>", to_html("%input(checked=true)", HtmlFormat::Html5).unwrap());
}

#[test]
fn doctypes() {
    assert_eq!("<!DOCTYPE html>", html5("!!! 5"));
    assert_eq!("<!DOCTYPE html>", to_html("!!! 5", HtmlFormat::XHtml).unwrap());
    assert_eq!(
        "<!DOCTYPE html PUBLIC \"-//W3C//DTD XHTML 1.0 Transitional//EN\" \"http://www.w3.org/TR/xhtml1/DTD/xhtml1-transitional.dtd\">",
        to_html("!!!", HtmlFormat::XHtml).unwrap()
    );
    assert_eq!(
        "<!DOCTYPE html PUBLIC \"-//W3C//DTD HTML 4.01//EN\" \"http://www.w3.org/TR/html4/strict.dtd\">",
        to_html("!!! Strict", HtmlFormat::Html4).unwrap()
    );
    assert_eq!("<?xml version='1.0' encoding='utf-8' ?>", html5("!!! XML"));
}

#[test]
fn comment_line() {
    assert_eq!("<!-- note -->", html5("/ note"));
    assert_eq!("<!--note-->", to_html("/ note", HtmlFormat::XHtml).unwrap());
}

#[test]
fn comment_with_children() {
    assert_eq!("<!--\n<p></p>\n-->", html5("/\n  %p"));
}

#[test]
fn hash_attributes_with_array() {
    assert_eq!(
        "<span id='x' class='a b'></span>",
        html5("%span{:id => \"x\", :class => [\"a\",\"b\"]}")
    );
}

#[test]
fn class_values_keep_source_order() {
    assert_eq!("<p class='a b c'></p>", html5("%p.a{:class => [\"b\", \"c\"]}"));
}

#[test]
fn pre_keeps_no_trailing_newline() {
    assert_eq!("<pre>text</pre>", html5("%pre\n  text"));
    assert_eq!("<textarea>a\nb</textarea>", html5("%textarea\n  a\n  b"));
}

#[test]
fn inline_text_and_sigils_inside_text() {
    assert_eq!("<p>Hello, world.</p>", html5("%p Hello, world."));
    assert_eq!("100% sure\n<b></b>", html5("100% sure\n%b"));
    assert_eq!("%literal", html5("\\%literal"));
}

#[test]
fn html_style_attributes() {
    assert_eq!("<a href='x' title='y'></a>", html5("%a(href=\"x\" title='y')"));
    assert_eq!("<a title='it s'></a>", html5("%a(title=\"it's\")"));
}

#[test]
fn void_elements_in_html() {
    assert_eq!("<div>\n<br></div>", html5("%div\n  %br"));
    assert_eq!("<br></br>", to_html("%br", HtmlFormat::XHtml).unwrap());
}

#[test]
fn output_is_trimmed_and_trimming_again_changes_nothing() {
    let out = html5("\n\n%p text\n\n");
    assert_eq!("<p>text</p>", out);
    assert_eq!(out.trim(), out);
}

#[test]
fn stray_paren_is_an_error() {
    assert_eq!(ErrorKind::StrayDelimiter, to_html("(a=b)", HtmlFormat::Html5).unwrap_err().kind);
    assert_eq!(ErrorKind::StrayDelimiter, to_html("{:a => \"b\"}", HtmlFormat::Html5).unwrap_err().kind);
}

#[test]
fn missing_names_are_errors() {
    assert_eq!(ErrorKind::MissingText, to_html("%", HtmlFormat::Html5).unwrap_err().kind);
    assert_eq!(ErrorKind::MissingText, to_html("%p.", HtmlFormat::Html5).unwrap_err().kind);
    let e = to_html("%p\n#", HtmlFormat::Html5).unwrap_err();
    assert_eq!(ErrorKind::MissingText, e.kind);
    assert_eq!(2, e.line);
}

#[test]
fn malformed_attributes_are_errors() {
    assert_eq!(ErrorKind::MalformedAttribute, to_html("%a(=b)", HtmlFormat::Html5).unwrap_err().kind);
    assert_eq!(ErrorKind::MalformedAttribute, to_html("%a{:b \"c\"}", HtmlFormat::Html5).unwrap_err().kind);
    assert_eq!(ErrorKind::UnexpectedEnd, to_html("%a(b=c", HtmlFormat::Html5).unwrap_err().kind);
}

#[test]
fn ast_dump() {
    assert_eq!("root:\n\telement:div\n\t\ttext:hi\n", to_ast("%div\n  hi").unwrap());
}

#[test]
fn attributes_keep_first_insertion_order() {
    let mut a = Attributes::new();
    a.add("id".to_string(), "x".to_string());
    a.add("class".to_string(), "a".to_string());
    a.add("id".to_string(), "y".to_string());
    assert_eq!(2, a.len());
    assert_eq!("id", a.key_at(0).as_str());
    assert_eq!(vec!["x".to_string(), "y".to_string()], *a.values_at(0));
    assert_eq!("class", a.key_at(1).as_str());
    assert_eq!("x y", join_values(a.values_at(0)));
}

#[test]
fn add_attribute_cleans_apostrophes() {
    let mut el = HtmlElement::new("a".to_string());
    el.add_attribute("title".to_string(), " don't ".to_string());
    assert_eq!("don t", el.attributes().values_at(0)[0]);
    assert_eq!("a", el.tag());
}

#[test]
fn arena_built_by_hand_renders() {
    let mut arena = Arena::new();
    let div = arena.insert(Html::Element(HtmlElement::new("div".to_string())), 0, 0);
    arena.insert(Html::Text("hi".to_string()), 2, div);
    assert_eq!("<div>\nhi\n</div>", render(&arena, HtmlFormat::Html5));
    assert_eq!("<div>\nhi\n</div>", XHtmlFormatter::new().generate(&arena));
    assert_eq!(div, arena.ancestor_at_indent(2, 2));
    assert_eq!(0, arena.ancestor_at_indent(2, 0));
}

#[test]
fn parse_template_gives_a_tree() {
    let arena = parse_template("%a\n  %b").unwrap();
    assert_eq!(3, arena.len());
    assert_eq!(&vec![2], arena.children_of(1));
}

#[test]
fn checked_true_on_any_element() {
    assert_eq!("<p checked='checked'></p>", to_html("%p{:checked => \"true\"}", HtmlFormat::XHtml).unwrap());
    assert_eq!("<p checked></p>", to_html("%p{:checked => \"true\"}", HtmlFormat::Html5).unwrap());
    assert_eq!("<p checked></p>", to_html("%p(checked=true)", HtmlFormat::Html4).unwrap());
    assert_eq!("<p checked='checked'></p>", to_html("%p(checked=checked)", HtmlFormat::XHtml).unwrap());
}

#[test]
fn xhtml_input_stops_at_its_own_close() {
    assert_eq!("<div>\n<input /></div>", to_html("%div\n  %input", HtmlFormat::XHtml).unwrap());
}

#[test]
fn comments_and_doctypes_add_no_newline() {
    assert_eq!("<!-- a --><p></p>", html5("/ a\n%p"));
    assert_eq!("<!DOCTYPE html><html></html>", html5("!!! 5\n%html"));
}

#[test]
fn untaken_tokens_are_errors() {
    let e = to_html("= x", HtmlFormat::Html5).unwrap_err();
    assert_eq!(ErrorKind::UnexpectedToken, e.kind);
    assert_eq!(0, e.near_token);
    assert_eq!(ErrorKind::UnexpectedToken, to_html("%p= x", HtmlFormat::Html5).unwrap_err().kind);
    assert_eq!(ErrorKind::UnexpectedToken, to_html("%p\n  , more", HtmlFormat::Html5).unwrap_err().kind);
}
